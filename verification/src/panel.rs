//! The state of the control panel and what each event does to it.
//!
//! Levels and times are single-precision numbers, held by their bits; times are in seconds. What an
//! event leaves to do outside of the panel is told by an [`Effect`].

use std::collections::HashMap;

use vstd::arithmetic::power2::pow2;
use vstd::prelude::*;

use crate::arith::{
    lemma_difference_shrinks, lemma_product_bound, lemma_sum_grows, lemma_sum_reaches,
    lemma_sum_stays_below, minus, moderate, nearest, negate, one, plus, product, sum, times, units,
    whole, VAST,
};
use crate::ccmap::CONTROLS;
use crate::controls::{
    bits_for_level, bits_of_level, level_for_bits, level_of_bits, BITS, BIT_LEVELS, DRIVE,
    FIRST_MASTER, NBITS, NDRUMS, NP, NROWS, START_VOLUME,
};
use crate::geometry::Rect;
use crate::single::{
    clamp_unit, clamped, in_unit, is_number, less, lower, place, INFINITY, ONE, SIGN, ZERO,
};

pub mod keys;
pub mod messages;
pub mod mouse;
pub mod screen;

verus! {

/// The parameters of one drum: tune, ratio, modulation depth and its decay, pitch envelope and
/// its decay, decay, snap, tone; all levels from 0 to 1.
#[derive(Clone, Copy, Debug)]
pub struct DrumParams {
    pub p: [u32; 9],
}

/// The parameters of the drums at the start: a rough kick, snare and hihat.
pub const KIT: [[u32; 9]; 3] = [
    // kick: 0.18 0.10 0.20 0.70 0.55 0.65 0.45 0.10 0.10
    [
        0x3E38_51EC,
        0x3DCC_CCCD,
        0x3E4C_CCCD,
        0x3F33_3333,
        0x3F0C_CCCD,
        0x3F26_6666,
        0x3EE6_6666,
        0x3DCC_CCCD,
        0x3DCC_CCCD,
    ],
    // snare: 0.42 0.25 0.40 0.60 0.20 0.70 0.25 0.70 0.50
    [
        0x3ED7_0A3D,
        0x3E80_0000,
        0x3ECC_CCCD,
        0x3F19_999A,
        0x3E4C_CCCD,
        0x3F33_3333,
        0x3E80_0000,
        0x3F33_3333,
        0x3F00_0000,
    ],
    // hihat: 0.72 0.45 0.60 0.20 0.00 0.50 0.12 0.60 0.80
    [
        0x3F38_51EC,
        0x3EE6_6666,
        0x3F19_999A,
        0x3E4C_CCCD,
        0x0000_0000,
        0x3F00_0000,
        0x3DF5_C28F,
        0x3F19_999A,
        0x3F4C_CCCD,
    ],
];

/// The bits of 0.05, a small step of a level.
pub const STEP: u32 = 0x3D4C_CCCD;

/// The bits of 0.9, how hard a computer key hits a drum.
pub const KEY_VELOCITY: u32 = 0x3F66_6666;

/// The bits of 1.6, how long a notice stays.
pub const NOTICE: u32 = 0x3FCC_CCCD;

/// The bits of 0.12, how long a drum counts as just hit.
pub const FLASH: u32 = 0x3DF5_C28F;

/// The bits of 0.033, how long the screen stays before it is drawn again.
pub const REDRAW: u32 = 0x3D07_2B02;

/// The bits of -1, when a drum that was never hit counts as last hit.
pub const NEVER: u32 = 0xBF80_0000;

/// What is left to do after an event.
#[derive(Clone, Copy, Debug, PartialEq, Eq, Structural)]
pub enum Effect {
    Nothing,
    /// End the program.
    Quit,
    /// Sound a drum with its present parameters, as hard as `velocity` says.
    Play { drum: usize, velocity: u32 },
    /// A control was set.
    Moved { id: usize },
    /// Store the controller bindings.
    Save,
}

/// What an effect names exists: a drum, a control.
pub open spec fn effect_ok(e: Effect) -> bool {
    match e {
        Effect::Nothing | Effect::Quit | Effect::Save => true,
        Effect::Play { drum, .. } => drum < NDRUMS,
        Effect::Moved { id } => id < CONTROLS,
    }
}

/// The panel.
pub struct App {
    drums: [DrumParams; 3],
    drive: u32,
    volume: u32,
    bits_idx: usize,
    sel_drum: usize,
    sel_row: usize,
    flash: [u32; 3],
    cc_map: HashMap<u8, usize>,
    learn: bool,
    midi_channel: u8,
    midi_port: String,
    last_midi: Option<String>,
    toast: Option<String>,
    toast_until: u32,
    hits: Vec<(usize, Rect)>,
}

/// What the panel holds.
#[verifier::ext_equal]
pub struct State {
    /// The parameters of each drum.
    pub drums: Seq<Seq<u32>>,
    pub drive: u32,
    pub volume: u32,
    /// The setting of the bit crusher.
    pub bits_idx: int,
    /// The selected drum and row.
    pub sel_drum: int,
    pub sel_row: int,
    /// When each drum was last hit.
    pub flash: Seq<u32>,
    /// The control that each bound controller moves.
    pub cc_map: Map<u8, usize>,
    /// The next controller message binds its controller to the selected control.
    pub learn: bool,
    /// The channel listened to, counted from one; zero stands for all.
    pub midi_channel: int,
    pub midi_port: Seq<char>,
    /// The last message heard, in words.
    pub last_midi: Option<Seq<char>>,
    /// The notice shown, and when it goes away.
    pub toast: Option<Seq<char>>,
    pub toast_until: u32,
    /// Where the bars of the controls stand on the screen.
    pub hits: Seq<(usize, Rect)>,
}

/// An optional text, as a sequence of characters.
pub open spec fn text_view(o: Option<String>) -> Option<Seq<char>> {
    match o {
        Some(s) => Some(s@),
        None => None,
    }
}

impl View for App {
    type V = State;

    closed spec fn view(&self) -> State {
        State {
            drums: Seq::new(3, |d: int| self.drums[d].p@),
            drive: self.drive,
            volume: self.volume,
            bits_idx: self.bits_idx as int,
            sel_drum: self.sel_drum as int,
            sel_row: self.sel_row as int,
            flash: self.flash@,
            cc_map: self.cc_map@,
            learn: self.learn,
            midi_channel: self.midi_channel as int,
            midi_port: self.midi_port@,
            last_midi: text_view(self.last_midi),
            toast: text_view(self.toast),
            toast_until: self.toast_until,
            hits: self.hits@,
        }
    }
}

/// A drum has nine parameters, each neither below 0 nor above 1. What is no number is neither.
pub open spec fn params_wf(p: Seq<u32>) -> bool {
    p.len() == NP && forall|i: int| 0 <= i < p.len() ==> in_unit(#[trigger] p[i])
}

/// A time that a clock can show.
pub open spec fn is_time(t: u32) -> bool {
    t <= VAST
}

/// The level that control `id` has after it was set to `n`: within its range, and for the bit
/// crusher the level of a setting.
pub open spec fn settled(id: int, n: u32) -> u32 {
    if id == BITS {
        level_of_bits(bits_of_level(n))
    } else {
        clamped(n)
    }
}

/// `d` small steps.
pub open spec fn steps(d: int) -> u32 {
    if d < 0 {
        minus(product(STEP, whole((-d) as nat)))
    } else {
        product(STEP, whole(d as nat))
    }
}

/// The level `v` moved by `d` small steps, within its range; what is no number stays as it is.
pub open spec fn nudged(v: u32, d: int) -> u32 {
    if is_number(v) {
        clamped(plus(v, steps(d)))
    } else {
        v
    }
}

/// A drum last hit at the time `hit` counts as just hit at the time `now`.
pub open spec fn just_hit(hit: u32, now: u32) -> bool {
    lower(plus(now, minus(hit)), FLASH)
}

/// A screen that was last drawn at the time `last` is to be drawn again at the time `now`.
pub open spec fn is_redraw_due(last: u32, now: u32) -> bool {
    !lower(plus(now, minus(last)), REDRAW)
}

/// Whether a screen that was last drawn at the time `last` is to be drawn again at the time `now`.
pub fn redraw_due(last: u32, now: u32) -> (r: bool)
    requires
        moderate(last),
        moderate(now),
    ensures
        r == is_redraw_due(last, now),
{
    !less(sum(now, negate(last)), REDRAW)
}

/// Moves a level by `d` small steps.
fn nudge(v: u32, d: i32) -> (r: u32)
    requires
        in_unit(v),
    ensures
        r == nudged(v, d as int),
        in_unit(r),
{
    if v % SIGN > INFINITY {
        return v;
    }
    let count: u64 = if d < 0 {
        (-(d as i64)) as u64
    } else {
        d as u64
    };
    let size = times(STEP, count);
    let step = if d < 0 {
        negate(size)
    } else {
        size
    };
    clamp_unit(sum(v, step))
}

impl State {
    /// What holds of every panel: levels are neither below 0 nor above 1, selections and settings are
    /// in range, bindings and bars name controls. A level that is no number is neither below nor above
    /// anything; that there are none is told by `numeric`.
    pub open spec fn wf(self) -> bool {
        &&& self.drums.len() == 3
        &&& forall|d: int| 0 <= d < 3 ==> params_wf(#[trigger] self.drums[d])
        &&& in_unit(self.drive)
        &&& in_unit(self.volume)
        &&& 0 <= self.bits_idx < NBITS
        &&& 0 <= self.sel_drum < 3
        &&& 0 <= self.sel_row < NROWS
        &&& self.flash.len() == 3
        &&& forall|d: int| 0 <= d < 3 ==> moderate(#[trigger] self.flash[d])
        &&& crate::ccmap::bindings_valid(self.cc_map)
        &&& 0 <= self.midi_channel <= 16
        &&& forall|i: int| 0 <= i < self.hits.len() ==> (#[trigger] self.hits[i]).0 < CONTROLS
    }

    /// Every level is a number; in a panel as it should be, each is then one from 0 to 1.
    pub open spec fn numeric(self) -> bool {
        &&& forall|d: int, p: int| 0 <= d < 3 && 0 <= p < NP ==> is_number(#[trigger] self.drums[d][p])
        &&& is_number(self.drive)
        &&& is_number(self.volume)
    }

    /// The number of the selected control.
    pub open spec fn cur_id(self) -> int {
        if self.sel_row < NP {
            self.sel_drum * NP + self.sel_row
        } else {
            FIRST_MASTER + (self.sel_row - NP)
        }
    }

    /// The level of a control.
    pub open spec fn norm(self, id: int) -> u32 {
        if id < FIRST_MASTER {
            self.drums[id / (NP as int)][id % (NP as int)]
        } else if id == DRIVE {
            self.drive
        } else if id == BITS {
            level_of_bits(self.bits_idx)
        } else {
            self.volume
        }
    }

    /// After control `id` was set to `n`.
    pub open spec fn with_norm(self, id: int, n: u32) -> State {
        let v = clamped(n);
        if id < FIRST_MASTER {
            let d = id / (NP as int);
            State {
                drums: self.drums.update(d, self.drums[d].update(id % (NP as int), v)),
                ..self
            }
        } else if id == DRIVE {
            State { drive: v, ..self }
        } else if id == BITS {
            State { bits_idx: bits_of_level(n), ..self }
        } else {
            State { volume: v, ..self }
        }
    }

    /// After control `id` was selected. A master control leaves the selected drum as it is.
    pub open spec fn with_selected(self, id: int) -> State {
        if id < FIRST_MASTER {
            State { sel_drum: id / (NP as int), sel_row: id % (NP as int), ..self }
        } else {
            State { sel_row: NP + (id - FIRST_MASTER), ..self }
        }
    }

    /// After the selected control was moved by `d` steps: the bit crusher turns round through its
    /// settings, a level moves by small steps.
    pub open spec fn after_adjust(self, d: int) -> State {
        let id = self.cur_id();
        if id == BITS {
            State { bits_idx: (self.bits_idx + d) % (NBITS as int), ..self }
        } else {
            self.with_norm(id, nudged(self.norm(id), d))
        }
    }

    /// After drum `drum` was hit.
    pub open spec fn with_hit(self, drum: int, now: u32) -> State {
        State { sel_drum: drum, flash: self.flash.update(drum, now), ..self }
    }

    /// With a notice put up.
    pub open spec fn with_toast(self, m: Seq<char>, now: u32) -> State {
        State { toast: Some(m), toast_until: plus(now, NOTICE), ..self }
    }
}

impl App {
    /// The panel at the start of the program: the starting kit and volume, no drive, the bit crusher
    /// off, the first parameter of the first drum selected, all channels heard, and the bindings
    /// that were saved, if any.
    pub fn start(saved: Option<&str>, midi_port: String) -> (r: App)
        ensures
            r@.wf(),
            r@.numeric(),
            r@ == (State {
                drums: Seq::new(3, |d: int| KIT[d]@),
                drive: ZERO,
                volume: START_VOLUME,
                bits_idx: 0,
                sel_drum: 0,
                sel_row: 0,
                flash: seq![NEVER, NEVER, NEVER],
                cc_map: match saved {
                    Some(text) => crate::ccmap::bindings_in(text@),
                    None => Map::empty(),
                },
                learn: false,
                midi_channel: 0,
                midi_port: midi_port@,
                last_midi: None,
                toast: None,
                toast_until: ZERO,
                hits: Seq::<(usize, Rect)>::empty(),
            }),
    {
        let cc_map = match saved {
            Some(text) => crate::ccmap::load_cc_map(text),
            None => HashMap::new(),
        };
        let r = App {
            drums: [DrumParams { p: KIT[0] }, DrumParams { p: KIT[1] }, DrumParams { p: KIT[2] }],
            drive: ZERO,
            volume: START_VOLUME,
            bits_idx: 0,
            sel_drum: 0,
            sel_row: 0,
            flash: [NEVER, NEVER, NEVER],
            cc_map,
            learn: false,
            midi_channel: 0,
            midi_port,
            last_midi: None,
            toast: None,
            toast_until: ZERO,
            hits: Vec::new(),
        };
        assert(params_wf(r@.drums[0]));
        assert(params_wf(r@.drums[1]));
        assert(params_wf(r@.drums[2]));
        assert(r@.flash =~= seq![NEVER, NEVER, NEVER]);
        assert(r@.drums =~= Seq::new(3, |d: int| KIT[d]@));
        r
    }

    /// The number of the selected control.
    pub fn cur_id(&self) -> (id: usize)
        requires
            self@.wf(),
        ensures
            id == self@.cur_id(),
            id < CONTROLS,
    {
        if self.sel_row < NP {
            self.sel_drum * NP + self.sel_row
        } else {
            FIRST_MASTER + (self.sel_row - NP)
        }
    }

    /// The level of a control.
    pub fn control_norm(&self, id: usize) -> (n: u32)
        requires
            self@.wf(),
            id < CONTROLS,
        ensures
            n == self@.norm(id as int),
    {
        if id < FIRST_MASTER {
            self.drums[id / NP].p[id % NP]
        } else if id == DRIVE {
            self.drive
        } else if id == BITS {
            level_for_bits(self.bits_idx)
        } else {
            self.volume
        }
    }

    /// Sets a control; a level outside of 0 to 1 is moved to the nearer end, and the bit crusher
    /// takes the nearest setting.
    pub fn set_norm(&mut self, id: usize, n: u32)
        requires
            old(self)@.wf(),
            id < CONTROLS,
        ensures
            final(self)@ == old(self)@.with_norm(id as int, n),
            final(self)@.wf(),
    {
        let v = clamp_unit(n);
        if id < FIRST_MASTER {
            self.drums[id / NP].p[id % NP] = v;
            assert(self@.drums =~= old(self)@.with_norm(id as int, n).drums);
        } else if id == DRIVE {
            self.drive = v;
        } else if id == BITS {
            self.bits_idx = bits_for_level(n);
        } else {
            self.volume = v;
        }
    }

    /// Moves the selected control by `d` steps: the bit crusher turns round through its settings, a
    /// level moves by small steps.
    pub fn adjust(&mut self, d: i32)
        requires
            old(self)@.wf(),
        ensures
            final(self)@ == old(self)@.after_adjust(d as int),
            final(self)@.wf(),
    {
        let id = self.cur_id();
        if id == BITS {
            let turned: i64 = self.bits_idx as i64 + d as i64;
            match turned.checked_rem_euclid(NBITS as i64) {
                Some(b) => {
                    self.bits_idx = b as usize;
                },
                None => {},
            }
        } else {
            let cur = self.control_norm(id);
            proof {
                lemma_levels_in_range(self@, id as int);
            }
            let moved = nudge(cur, d);
            self.set_norm(id, moved);
        }
    }

    /// Hits a drum: selects it, notes the time and gives the parameters to sound it with.
    pub fn trigger(&mut self, drum: usize, now: u32) -> (p: DrumParams)
        requires
            old(self)@.wf(),
            drum < 3,
            is_time(now),
        ensures
            final(self)@ == old(self)@.with_hit(drum as int, now),
            final(self)@.wf(),
            p.p@ == old(self)@.drums[drum as int],
            params_wf(p.p@),
    {
        self.sel_drum = drum;
        self.flash[drum] = now;
        assert(self@ =~= old(self)@.with_hit(drum as int, now));
        assert(params_wf(self@.drums[drum as int]));
        self.drums[drum]
    }

    /// Puts up a notice.
    pub fn set_toast(&mut self, m: String, now: u32)
        requires
            old(self)@.wf(),
            is_time(now),
        ensures
            final(self)@ == old(self)@.with_toast(m@, now),
            final(self)@.wf(),
    {
        self.toast = Some(m);
        self.toast_until = sum(now, NOTICE);
    }

    /// Takes the notice down once its time is past.
    pub fn expire_toast(&mut self, now: u32)
        requires
            old(self)@.wf(),
        ensures
            final(self)@ == if lower(old(self)@.toast_until, now) {
                State { toast: None, ..old(self)@ }
            } else {
                old(self)@
            },
            final(self)@.wf(),
    {
        if self.toast.is_some() && less(self.toast_until, now) {
            self.toast = None;
        }
    }

    /// Whether a drum was just hit.
    pub fn flashes(&self, drum: usize, now: u32) -> (r: bool)
        requires
            self@.wf(),
            drum < 3,
            is_time(now),
        ensures
            r == just_hit(self@.flash[drum as int], now),
    {
        assert(moderate(self@.flash[drum as int]));
        less(sum(now, negate(self.flash[drum])), FLASH)
    }

    /// The quantization levels of the bit crusher; zero leaves the sound as it is.
    pub fn bit_levels(&self) -> (levels: u32)
        requires
            self@.wf(),
        ensures
            levels == BIT_LEVELS[self@.bits_idx],
            crate::crush::is_grid(levels),
    {
        proof {
            crate::crush::law_settings_are_grids(self@.bits_idx);
        }
        BIT_LEVELS[self.bits_idx]
    }

    /// The parameters of a drum.
    pub fn params(&self, drum: usize) -> (p: DrumParams)
        requires
            self@.wf(),
            drum < 3,
        ensures
            p.p@ == self@.drums[drum as int],
            params_wf(p.p@),
    {
        self.drums[drum]
    }

    /// The controller bindings, as text.
    pub fn bindings_text(&self) -> (s: String)
        ensures
            s@ == crate::ccmap::text_of(self@.cc_map),
    {
        crate::ccmap::save_cc_map(&self.cc_map)
    }
}

/// Selects a control.
pub fn select_id(app: &mut App, id: usize)
    requires
        old(app)@.wf(),
        id < CONTROLS,
    ensures
        final(app)@ == old(app)@.with_selected(id as int),
        final(app)@.wf(),
{
    if id < FIRST_MASTER {
        app.sel_drum = id / NP;
        app.sel_row = id % NP;
    } else {
        app.sel_row = NP + (id - FIRST_MASTER);
    }
}

/// Every level is in range.
proof fn lemma_levels_in_range(s: State, id: int)
    requires
        s.wf(),
        0 <= id < CONTROLS,
        id != BITS,
    ensures
        in_unit(s.norm(id)),
{
    if id < FIRST_MASTER {
        assert(params_wf(s.drums[id / (NP as int)]));
    }
}

// ---------- laws ----------

/// A control that was set reads back as it was set, but for a level out of range, which reads back
/// as the nearer end of the range, and for the bit crusher, which takes the nearest setting.
pub proof fn law_set_then_read(s: State, id: int, n: u32)
    requires
        s.wf(),
        0 <= id < CONTROLS,
    ensures
        s.with_norm(id, n).norm(id) == settled(id, n),
        s.with_norm(id, n).wf(),
{
    crate::controls::lemma_bits_of_level(n);
}

/// Setting a control to the level it has changes nothing.
pub proof fn law_read_then_set(s: State, id: int)
    requires
        s.wf(),
        0 <= id < CONTROLS,
    ensures
        s.with_norm(id, s.norm(id)) == s,
{
    if id == BITS {
        crate::controls::law_bits_read_back(s.bits_idx);
    } else {
        lemma_levels_in_range(s, id);
        crate::single::law_clamp(s.norm(id), s.norm(id));
        let t = s.with_norm(id, s.norm(id));
        if id < FIRST_MASTER {
            let d = id / (NP as int);
            assert(t.drums[d] =~= s.drums[d]);
        }
        assert(t.drums =~= s.drums);
    }
    assert(s.with_norm(id, s.norm(id)) =~= s);
}

/// Setting a control moves no other one.
pub proof fn law_set_moves_one(s: State, id: int, n: u32, other: int)
    requires
        s.wf(),
        0 <= id < CONTROLS,
        0 <= other < CONTROLS,
        other != id,
    ensures
        s.with_norm(id, n).norm(other) == s.norm(other),
{
    if id < FIRST_MASTER && other < FIRST_MASTER && id / (NP as int) == other / (NP as int) {
        vstd::arithmetic::div_mod::lemma_fundamental_div_mod(id, NP as int);
        vstd::arithmetic::div_mod::lemma_fundamental_div_mod(other, NP as int);
    }
}

/// The selected control is the one that was selected, and selecting it again changes nothing.
pub proof fn law_select_then_current(s: State, id: int)
    requires
        s.wf(),
        0 <= id < CONTROLS,
    ensures
        s.with_selected(id).cur_id() == id,
        s.with_selected(id).wf(),
        s.with_selected(s.cur_id()) == s,
{
    vstd::arithmetic::div_mod::lemma_fundamental_div_mod(id, NP as int);
    assert(s.with_selected(s.cur_id()) =~= s);
}

/// Moving the selected control moves no other one and keeps the panel whole.
pub proof fn law_adjust_moves_one(s: State, d: int, other: int)
    requires
        s.wf(),
        0 <= other < CONTROLS,
        other != s.cur_id(),
    ensures
        s.after_adjust(d).norm(other) == s.norm(other),
        s.after_adjust(d).wf(),
{
    let id = s.cur_id();
    if id != BITS {
        law_set_then_read(s, id, nudged(s.norm(id), d));
        law_set_moves_one(s, id, nudged(s.norm(id), d), other);
    }
}

/// Moving the bit crusher by some steps and back again leaves the panel as it was.
pub proof fn law_bits_turn_back(s: State, d: int)
    requires
        s.wf(),
        s.cur_id() == BITS,
    ensures
        s.after_adjust(d).after_adjust(-d) == s,
{
    let b = s.after_adjust(d).bits_idx;
    assert(s.after_adjust(d).cur_id() == BITS);
    assert((b - d) % 6 == s.bits_idx);
    assert(s.after_adjust(d).after_adjust(-d) =~= s);
}

/// Moving the bit crusher once through all of its settings leaves the panel as it was.
pub proof fn law_bits_turn_round(s: State)
    requires
        s.wf(),
        s.cur_id() == BITS,
    ensures
        s.after_adjust(NBITS as int) == s,
{
    assert(s.after_adjust(NBITS as int) =~= s);
}

/// Levels that are all numbers stay so when a control is set to a number.
pub proof fn law_set_keeps_numbers(s: State, id: int, n: u32)
    requires
        s.wf(),
        s.numeric(),
        0 <= id < CONTROLS,
        is_number(n),
    ensures
        s.with_norm(id, n).numeric(),
{
    let after = s.with_norm(id, n);
    assert(is_number(clamped(n)));
    assert forall|d: int, p: int| 0 <= d < 3 && 0 <= p < NP implies is_number(
        #[trigger] after.drums[d][p],
    ) by {
        assert(is_number(s.drums[d][p]));
        assert(params_wf(s.drums[d]));
        if id < FIRST_MASTER && d == id / (NP as int) {
            assert(after.drums[d] == s.drums[d].update(id % (NP as int), clamped(n)));
        }
    }
}

/// Levels that are all numbers stay so when the selected control is moved.
pub proof fn law_adjust_keeps_numbers(s: State, d: int)
    requires
        s.wf(),
        s.numeric(),
        -0x8000_0000 <= d <= 0x7FFF_FFFF,
    ensures
        s.after_adjust(d).numeric(),
{
    let id = s.cur_id();
    if id != BITS {
        lemma_levels_in_range(s, id);
        assert(is_number(s.norm(id))) by {
            if id < FIRST_MASTER {
                assert(is_number(s.drums[id / (NP as int)][id % (NP as int)]));
            }
        }
        law_steps_go_their_way(s.norm(id), d);
        law_set_keeps_numbers(s, id, nudged(s.norm(id), d));
    }
}

/// Steps upwards never lower a level, steps downwards never raise it, and no step leaves it as it
/// is.
pub proof fn law_steps_go_their_way(v: u32, d: int)
    requires
        in_unit(v),
        is_number(v),
        -0x8000_0000 <= d <= 0x7FFF_FFFF,
    ensures
        in_unit(nudged(v, d)),
        is_number(nudged(v, d)),
        d >= 0 ==> place(v) <= place(nudged(v, d)),
        d <= 0 ==> place(nudged(v, d)) <= place(v),
{
    let n = if d < 0 {
        (-d) as nat
    } else {
        d as nat
    };
    vstd::arithmetic::power2::lemma2_to64();
    lemma_product_bound(STEP, n);
    let size = product(STEP, whole(n));
    let v0 = v % SIGN;
    assert(units(v0) == units(v));
    assert(v == v0 || (v == SIGN && v0 == 0));
    lemma_sum_grows(v0, size);
    if d == 0 {
        crate::arith::lemma_product_none(STEP);
        crate::arith::law_exact_results(v0);
    } else if d < 0 {
        lemma_difference_shrinks(v0, size);
    }
}

/// A drum counts as just hit at the time of the hit, and a drum that was never hit does not.
pub proof fn law_hit_is_seen(now: u32)
    requires
        is_time(now),
    ensures
        just_hit(now, now),
        !just_hit(NEVER, now),
{
    crate::arith::law_exact_results(now);
    if now == 0 {
        assert(units(0) == 0);
        assert(units(SIGN) == 0);
    }
    assert(minus(NEVER) == ONE);
    lemma_sum_grows(ONE, now);
    lemma_sum_grows(now, ONE);
}

/// A screen that was never drawn is to be drawn, and one that was just drawn is not.
pub proof fn law_screen_is_drawn_once(now: u32)
    requires
        is_time(now),
    ensures
        is_redraw_due(NEVER, now),
        !is_redraw_due(now, now),
{
    crate::arith::law_exact_results(now);
    if now == 0 {
        assert(units(0) == 0);
        assert(units(SIGN) == 0);
    }
    assert(minus(NEVER) == ONE);
    lemma_sum_grows(ONE, now);
    lemma_sum_grows(now, ONE);
}

/// A notice stays up for the time it is meant to, to within the precision of the clock: it does
/// not go away before the last time that is not after its end.
pub proof fn law_notice_stays(s: State, m: Seq<char>, now: u32, t: u32)
    requires
        is_time(now),
        is_time(t),
        units(t) <= units(now) + units(NOTICE),
    ensures
        !lower(s.with_toast(m, now).toast_until, t),
{
    lemma_sum_reaches(now, NOTICE, t);
}

// ---------- what each change leaves alone ----------

/// The two states differ in their levels at most.
pub open spec fn same_but_levels(s: State, t: State) -> bool {
    &&& t.sel_drum == s.sel_drum
    &&& t.sel_row == s.sel_row
    &&& same_but_levels_and_selection(s, t)
}

/// The two states differ in their levels and the selection at most.
pub open spec fn same_but_levels_and_selection(s: State, t: State) -> bool {
    &&& t.flash == s.flash
    &&& t.cc_map == s.cc_map
    &&& t.learn == s.learn
    &&& t.midi_channel == s.midi_channel
    &&& t.midi_port == s.midi_port
    &&& t.last_midi == s.last_midi
    &&& t.toast == s.toast
    &&& t.toast_until == s.toast_until
    &&& t.hits == s.hits
}

/// The two states have the same levels.
pub open spec fn same_levels(s: State, t: State) -> bool {
    &&& t.drums == s.drums
    &&& t.drive == s.drive
    &&& t.volume == s.volume
    &&& t.bits_idx == s.bits_idx
}

/// Every control is a parameter of its drum, or one of the three of the whole: it reads what is held
/// there, and setting it sets what is held there.
pub proof fn law_controls_are_what_is_held(s: State, drum: int, param: int, n: u32)
    requires
        s.wf(),
        0 <= drum < 3,
        0 <= param < 9,
    ensures
        s.norm(9 * drum + param) == s.drums[drum][param],
        s.norm(27) == s.drive,
        s.norm(28) == level_of_bits(s.bits_idx),
        s.norm(29) == s.volume,
        s.with_norm(9 * drum + param, n).drums[drum][param] == clamped(n),
        s.with_norm(27, n).drive == clamped(n),
        s.with_norm(28, n).bits_idx == bits_of_level(n),
        s.with_norm(29, n).volume == clamped(n),
{
    let id = 9 * drum + param;
    assert(id / 9 == drum && id % 9 == param);
    assert(params_wf(s.drums[drum]));
}

/// Setting a control leaves everything but the levels as it is.
pub proof fn law_set_leaves_the_rest(s: State, id: int, n: u32)
    ensures
        same_but_levels(s, s.with_norm(id, n)),
{
}

/// Selecting a control changes the selection alone, and a master control not even the selected drum.
pub proof fn law_select_leaves_the_rest(s: State, id: int)
    ensures
        same_levels(s, s.with_selected(id)),
        same_but_levels_and_selection(s, s.with_selected(id)),
        id >= 27 ==> s.with_selected(id).sel_drum == s.sel_drum,
{
}

/// Whichever level is selected, moving it by some steps leaves it at its level plus these steps; the
/// bit crusher goes on by so many settings, round the end. Nothing but levels changes.
pub proof fn law_adjust_moves_the_selected(s: State, d: int)
    requires
        s.wf(),
        -0x8000_0000 <= d <= 0x7FFF_FFFF,
    ensures
        s.cur_id() != 28 ==> s.after_adjust(d).norm(s.cur_id()) == nudged(s.norm(s.cur_id()), d),
        s.cur_id() == 28 ==> (s.after_adjust(d).bits_idx - s.bits_idx - d) % 6 == 0,
        s.cur_id() == 28 ==> 0 <= s.after_adjust(d).bits_idx < 6,
        same_but_levels(s, s.after_adjust(d)),
{
    let id = s.cur_id();
    if id != BITS {
        lemma_levels_in_range(s, id);
        let v = nudged(s.norm(id), d);
        law_set_then_read(s, id, v);
        assert(clamped(v) == v) by {
            if is_number(s.norm(id)) {
                crate::single::law_clamp(plus(s.norm(id), steps(d)), v);
            } else {
                crate::single::law_clamp(v, v);
            }
        }
    } else {
        assert(((s.bits_idx + d) % 6 - s.bits_idx - d) % 6 == 0);
    }
}

/// No step is nothing, one step is one, and steps backwards are steps with the other sign.
pub proof fn law_steps(d: int)
    requires
        0 < d <= 0x8000_0000,
    ensures
        steps(0) == 0,
        steps(1) == STEP,
        steps(-d) == minus(steps(d)),
        steps(d) >= STEP,
        steps(d) <= VAST,
        d >= 20 ==> steps(d) >= ONE,
        d < 0x0100_0000 ==> crate::arith::is_nearest((d * units(STEP)) as nat, 1, steps(d)),
{
    crate::arith::lemma_product_none(STEP);
    vstd::arithmetic::power2::lemma2_to64();
    let n = d as nat;
    lemma_product_bound(STEP, n);
    lemma_product_bound(STEP, 1);
    crate::arith::lemma_one();
    crate::arith::lemma_whole_exact(1);
    let o = one();
    vstd::arithmetic::power2::lemma_pow2_pos(149);
    assert(1 * o == o);
    crate::arith::lemma_exact(units(STEP) * o, o, STEP);
    // a whole number from one on is at least one
    let (big, l) = (whole(n), crate::single::LARGEST);
    crate::arith::lemma_increasing(VAST, l);
    assert(o <= n * o <= units(VAST)) by (nonlinear_arith)
        requires
            1 <= n <= pow2(64),
            units(VAST) == pow2(64) * o,
            o > 0,
    ;
    crate::arith::law_nearest_keeps_order(1 * o, n * o, 1);
    crate::arith::lemma_exact(o, 1, ONE);
    crate::arith::lemma_increasing(ONE, big);
    crate::arith::lemma_increasing(big, l);
    crate::arith::lemma_increasing(STEP, ONE);
    let (x, y, z) = (units(STEP), units(big), units(l));
    assert(x * o <= x * y <= z * o) by (nonlinear_arith)
        requires
            o <= y <= z,
            x <= o,
    ;
    crate::arith::law_nearest_keeps_order(x * o, x * y, o);
    if d >= 20 {
        lemma_twenty_steps(d, y);
        crate::arith::law_nearest_keeps_order(o * o, x * y, o);
        crate::arith::lemma_exact(o * o, o, ONE);
    }
    if d < 0x0100_0000 {
        crate::arith::lemma_whole_exact(n);
        let t = (d * units(STEP)) as nat;
        assert(units(STEP) * (n * o) == t * o) by (nonlinear_arith)
            requires
                t == n * units(STEP),
        ;
        assert(t <= n * o) by (nonlinear_arith)
            requires
                t == n * x,
                x <= o,
        ;
        crate::arith::law_nearest_exists(t, 1);
        crate::arith::lemma_expand(t, 1, o, nearest(t, 1));
        crate::arith::law_nearest_is_unique(t * o, o, nearest(t, 1));
    }
}

/// Twenty steps span the range of a level.
proof fn lemma_twenty_steps(d: int, y: nat)
    requires
        20 <= d <= 0x8000_0000,
        y == units(whole(d as nat)),
    ensures
        one() * one() <= units(STEP) * y,
{
    let o = one();
    vstd::arithmetic::power2::lemma2_to64();
    vstd::arithmetic::power2::lemma_pow2_pos(149);
    vstd::arithmetic::power2::lemma_pow2_adds(28, 121);
    crate::arith::lemma_units_of(122, 0xCC_CCCD);
    crate::arith::lemma_one();
    crate::arith::lemma_whole_exact(20);
    lemma_product_bound(STEP, d as nat);
    let l = crate::single::LARGEST;
    crate::arith::lemma_increasing(VAST, l);
    let n = d as nat;
    assert(20 * o <= n * o <= units(VAST)) by (nonlinear_arith)
        requires
            20 <= n <= pow2(64),
            units(VAST) == pow2(64) * o,
            o > 0,
    ;
    crate::arith::law_nearest_keeps_order(20 * o, n * o, 1);
    crate::arith::lemma_increasing(whole(20), whole(n));
    let x = units(STEP);
    assert(20 * x >= o);
    assert(o * o <= x * y) by (nonlinear_arith)
        requires
            20 * x >= o,
            y >= 20 * o,
            o > 0,
    ;
}

/// Steps upwards raise every level below 1, and steps downwards lower every level above 0.
pub proof fn law_steps_are_felt(v: u32, d: int)
    requires
        v <= ONE,
        -0x8000_0000 <= d <= 0x7FFF_FFFF,
    ensures
        d > 0 && v < ONE ==> place(v) < place(nudged(v, d)),
        d < 0 && v > 0 ==> place(nudged(v, d)) < place(v),
{
    if d != 0 {
        let n = if d < 0 {
            -d
        } else {
            d
        };
        law_steps(n);
        let size = steps(n);
        crate::arith::lemma_increasing(STEP, size);
        vstd::arithmetic::power2::lemma2_to64();
        // the distance to the neighbour of a level is less than a step
        assert(units(STEP) >= pow2(125)) by {
            crate::arith::lemma_units_of(122, 0xCC_CCCD);
            vstd::arithmetic::power2::lemma_pow2_adds(4, 121);
        }
        if d > 0 && v < ONE {
            let up = (v + 1) as u32;
            crate::arith::lemma_level_gap(v);
            crate::arith::lemma_sum_reaches(v, size, up);
        }
        if d < 0 && v > 0 {
            assert(steps(d) == minus(size)) by {
                assert(d == -n);
            }
            let down = (v - 1) as u32;
            crate::arith::lemma_level_gap(down);
            assert(minus(size) % SIGN == size);
            assert(units(minus(size)) == units(size));
            crate::arith::lemma_difference_shrinks(v, size);
            let diff = units(v) - units(size);
            if diff > 0 {
                crate::arith::lemma_increasing(down, crate::single::LARGEST);
                crate::arith::law_nearest_keeps_order(diff as nat, units(down), 1);
                crate::arith::lemma_exact(units(down), 1, down);
                assert(plus(v, steps(d)) == nearest(diff as nat, 1));
            } else if diff < 0 {
                crate::arith::lemma_increasing(size, crate::single::LARGEST);
                crate::arith::law_nearest_exists((-diff) as nat, 1);
            }
        }
    }
}

/// Steps upwards take a level to the number nearest to itself plus the steps, and steps downwards to
/// the number nearest to itself less the steps, as far as the range goes; twenty steps take it to an
/// end. What is no number stays as it is.
pub proof fn law_steps_add_up(v: u32, d: int, no_number: u32)
    requires
        v <= ONE,
        0 < d <= 0x7FFF_FFFF,
        !is_number(no_number),
    ensures
        ({
            let t = units(v) + units(steps(d));
            t >= one() ==> nudged(v, d) == ONE
        }),
        ({
            let t = units(v) + units(steps(d));
            t < one() ==> crate::arith::is_nearest(t, 1, nudged(v, d))
        }),
        units(v) <= units(steps(d)) ==> nudged(v, -d) == ZERO,
        units(v) > units(steps(d)) ==> crate::arith::is_nearest(
            (units(v) - units(steps(d))) as nat,
            1,
            nudged(v, -d),
        ),
        d >= 20 ==> nudged(v, d) == ONE && nudged(v, -d) == ZERO,
        nudged(v, 0) == v,
        nudged(no_number, d) == no_number,
        nudged(no_number, -d) == no_number,
{
    law_steps(d);
    let size = steps(d);
    crate::arith::lemma_one();
    let t = units(v) + units(size);
    let l = crate::single::LARGEST;
    crate::arith::lemma_increasing(ONE, l);
    crate::arith::lemma_increasing(v, ONE);
    crate::arith::lemma_increasing(0, v);
    crate::arith::lemma_increasing(size, l);
    crate::arith::lemma_strict(0, size);
    assert(units(0) == 0);
    lemma_sum_grows(v, size);
    crate::arith::law_exact_results(v);
    if d >= 20 {
        crate::arith::lemma_increasing(ONE, size);
    }
    if t >= one() {
        crate::arith::lemma_sum_reaches(v, size, ONE);
    } else {
        crate::arith::law_nearest_exists(t, 1);
        crate::arith::law_nearest_keeps_order(t, units(ONE), 1);
        crate::arith::lemma_exact(units(ONE), 1, ONE);
    }
    assert(minus(size) % SIGN == size);
    assert(units(minus(size)) == units(size));
    lemma_difference_shrinks(v, size);
    let rest = units(v) - units(size);
    if rest > 0 {
        crate::arith::law_nearest_exists(rest as nat, 1);
    } else if rest < 0 {
        crate::arith::law_nearest_exists((-rest) as nat, 1);
        // what is below zero stays below zero
        crate::arith::lemma_exact(1, 1, 1);
        crate::arith::law_nearest_keeps_order(1, (-rest) as nat, 1);
    }
}

/// A hit selects its drum and notes the time of the hit, and changes nothing else.
pub proof fn law_hit_leaves_the_rest(s: State, drum: int, now: u32, other: int)
    requires
        s.wf(),
        0 <= drum < 3,
        0 <= other < 3,
        other != drum,
    ensures
        s.with_hit(drum, now).sel_drum == drum,
        s.with_hit(drum, now).flash[drum] == now,
        s.with_hit(drum, now).flash[other] == s.flash[other],
        s.with_hit(drum, now).sel_row == s.sel_row,
        same_levels(s, s.with_hit(drum, now)),
        same_but_levels_and_selection(s, State { flash: s.flash, ..s.with_hit(drum, now) }),
{
}

/// A notice is shown as it was put up, and changes nothing else. It goes away once its time is over.
pub proof fn law_notice_is_put_up(s: State, m: Seq<char>, now: u32, end: u32, t: u32)
    requires
        is_time(now),
        end < t <= VAST,
        units(now) + units(NOTICE) <= units(end),
    ensures
        s.with_toast(m, now).toast == Some(m),
        s.with_toast(m, now) == (State {
            toast: Some(m),
            toast_until: s.with_toast(m, now).toast_until,
            ..s
        }),
        lower(s.with_toast(m, now).toast_until, t),
{
    lemma_sum_stays_below(now, NOTICE, end);
}

/// A drum counts as just hit as long as less than the time of a flash has gone by, and no longer.
pub proof fn law_flash_lasts(hit: u32, now: u32, b: u32)
    requires
        hit <= now <= VAST,
        b < FLASH,
    ensures
        units(now) - units(hit) >= units(FLASH) ==> !just_hit(hit, now),
        units(now) - units(hit) <= units(b) ==> just_hit(hit, now),
{
    lemma_gap_of_times(hit, now, FLASH);
    lemma_gap_of_times(hit, now, b);
}

/// A hit that lies ahead of the clock counts as one of just now, and a drawing that lies ahead of it
/// is not repeated.
pub proof fn law_times_ahead(ahead: u32, now: u32)
    requires
        now < ahead <= VAST,
    ensures
        just_hit(ahead, now),
        !is_redraw_due(ahead, now),
{
    let l = crate::single::LARGEST;
    assert(minus(ahead) % SIGN == ahead);
    assert(units(minus(ahead)) == units(ahead));
    crate::arith::lemma_strict(now, ahead);
    crate::arith::lemma_increasing(ahead, l);
    crate::arith::law_nearest_exists((units(ahead) - units(now)) as nat, 1);
}

/// The screen is drawn again once the time between two drawings has gone by, and not before.
pub proof fn law_redraw_waits(last: u32, now: u32, b: u32)
    requires
        last <= now <= VAST,
        b < REDRAW,
    ensures
        units(now) - units(last) >= units(REDRAW) ==> is_redraw_due(last, now),
        units(now) - units(last) <= units(b) ==> !is_redraw_due(last, now),
{
    lemma_gap_of_times(last, now, REDRAW);
    lemma_gap_of_times(last, now, b);
}

/// How the time between two times compares with a length of time.
proof fn lemma_gap_of_times(from: u32, to: u32, b: u32)
    requires
        from <= to <= VAST,
        b <= ONE,
    ensures
        plus(to, minus(from)) < INFINITY,
        units(to) - units(from) >= units(b) ==> plus(to, minus(from)) >= b,
        units(to) - units(from) <= units(b) ==> plus(to, minus(from)) <= b,
{
    let l = crate::single::LARGEST;
    assert(minus(from) % SIGN == from);
    assert(units(minus(from)) == units(from));
    crate::arith::lemma_increasing(from, to);
    crate::arith::lemma_increasing(to, l);
    crate::arith::lemma_increasing(b, l);
    crate::arith::lemma_increasing(0, b);
    assert(units(0) == 0);
    let d = (units(to) - units(from)) as nat;
    crate::arith::lemma_exact(units(b), 1, b);
    crate::arith::law_nearest_exists(d, 1);
    if d <= units(b) {
        crate::arith::law_nearest_keeps_order(d, units(b), 1);
    }
    if d >= units(b) {
        crate::arith::law_nearest_keeps_order(units(b), d, 1);
        if b > 0 {
            crate::arith::lemma_increasing(0, b);
        }
    }
    if b > 0 {
        crate::arith::lemma_strict(0, b);
    }
}

} // verus!
