//! What the computer keys do.

use vstd::prelude::*;
use vstd::string::StringExecFns;

use super::{
    effect_ok, is_time, law_adjust_keeps_numbers, App, Effect, State, KEY_VELOCITY,
};
use crate::controls::{control_name, name_of, NDRUMS, NROWS};
use crate::notes::{drum_for_semitone, drum_of_key, key_to_semitone};

verus! {

/// A key of the computer keyboard.
#[derive(Clone, Copy, Debug, PartialEq, Eq, Structural)]
pub enum Key {
    Esc,
    Tab,
    BackTab,
    Down,
    Up,
    Left,
    Right,
    Enter,
    Char(char),
    Other,
}

/// An event of a key: which one, with the control key held or not, and whether it went down.
#[derive(Clone, Copy, Debug, PartialEq, Eq, Structural)]
pub struct KeyPress {
    pub key: Key,
    pub ctrl: bool,
    pub pressed: bool,
}

/// Number of choices of the channel: all channels, or one of sixteen.
pub const CHANNEL_CHOICES: u8 = 17;

/// The notice that asks for a controller message.
pub open spec fn learn_text(id: int) -> Seq<char> {
    "MIDI learn: send a CC for "@ + name_of(id)
}

impl State {
    /// With the selection moved down by `n` rows, round the end.
    pub open spec fn with_row_moved(self, n: int) -> State {
        State { sel_row: (self.sel_row + n) % (NROWS as int), ..self }
    }

    /// With the selection moved right by `n` drums, round the end.
    pub open spec fn with_drum_moved(self, n: int) -> State {
        State { sel_drum: (self.sel_drum + n) % 3, ..self }
    }

    /// With the choice of the channel moved on by `n`, round the end.
    pub open spec fn with_channel_moved(self, n: int) -> State {
        State { midi_channel: (self.midi_channel + n) % (CHANNEL_CHOICES as int), ..self }
    }

    /// With learning turned on, which is announced, or off.
    pub open spec fn with_learn_toggled(self, now: u32) -> State {
        if self.learn {
            State { learn: false, ..self }
        } else {
            (State { learn: true, ..self }).with_toast(
                learn_text(self.cur_id()),
                now,
            )
        }
    }

    /// After a character key. The digits and signs are tried before the notes.
    pub open spec fn after_char(self, c: char, ctrl: bool, now: u32) -> (State, Effect) {
        if c == 'c' && ctrl {
            (self, Effect::Quit)
        } else if c == '=' || c == '+' {
            (self.after_adjust(1), Effect::Moved { id: self.cur_id() as usize })
        } else if c == '-' || c == '_' {
            (self.after_adjust(-1), Effect::Moved { id: self.cur_id() as usize })
        } else if c == 'm' {
            (self.with_channel_moved(1), Effect::Nothing)
        } else if '1' <= c && c <= '3' {
            (State { sel_drum: c as int - '1' as int, ..self }, Effect::Nothing)
        } else {
            match drum_of_key(c) {
                Some(drum) => (
                    self.with_hit(drum as int, now),
                    Effect::Play { drum, velocity: KEY_VELOCITY },
                ),
                None => (self, Effect::Nothing),
            }
        }
    }

    /// After an event of a key. Only a key that goes down does anything.
    pub open spec fn after_key(self, k: KeyPress, now: u32) -> (State, Effect) {
        if !k.pressed {
            (self, Effect::Nothing)
        } else {
            match k.key {
                Key::Esc => (self, Effect::Quit),
                Key::Tab => (self.with_row_moved(1), Effect::Nothing),
                Key::Down => (self.with_row_moved(1), Effect::Nothing),
                Key::BackTab => (self.with_row_moved(-1), Effect::Nothing),
                Key::Up => (self.with_row_moved(-1), Effect::Nothing),
                Key::Left => (self.with_drum_moved(-1), Effect::Nothing),
                Key::Right => (self.with_drum_moved(1), Effect::Nothing),
                Key::Enter => (self.with_learn_toggled(now), Effect::Nothing),
                Key::Char(c) => self.after_char(c, k.ctrl, now),
                Key::Other => (self, Effect::Nothing),
            }
        }
    }
}

impl App {
    /// Moves the selection up by one row, round the end.
    pub fn adjust_or_nav_up(&mut self)
        requires
            old(self)@.wf(),
        ensures
            final(self)@ == old(self)@.with_row_moved(-1),
            final(self)@.wf(),
    {
        self.sel_row = (self.sel_row + NROWS - 1) % NROWS;
    }
}

/// Handles a character key that went down.
fn handle_char(app: &mut App, c: char, ctrl: bool, now: u32) -> (e: Effect)
    requires
        old(app)@.wf(),
        is_time(now),
    ensures
        (final(app)@, e) == old(app)@.after_char(c, ctrl, now),
        effect_ok(e),
        final(app)@.wf(),
{
    if c == 'c' && ctrl {
        return Effect::Quit;
    }
    match c {
        '=' | '+' => {
            let id = app.cur_id();
            app.adjust(1);
            Effect::Moved { id }
        },
        '-' | '_' => {
            let id = app.cur_id();
            app.adjust(-1);
            Effect::Moved { id }
        },
        'm' => {
            app.midi_channel = (app.midi_channel + 1) % CHANNEL_CHOICES;
            Effect::Nothing
        },
        '1' => {
            app.sel_drum = 0;
            Effect::Nothing
        },
        '2' => {
            app.sel_drum = 1;
            Effect::Nothing
        },
        '3' => {
            app.sel_drum = 2;
            Effect::Nothing
        },
        _ => {
            if let Some(st) = key_to_semitone(c) {
                if let Some(drum) = drum_for_semitone(st) {
                    let _ = app.trigger(drum, now);
                    return Effect::Play { drum, velocity: KEY_VELOCITY };
                }
            }
            Effect::Nothing
        },
    }
}

/// Handles an event of a key.
pub fn handle_key(app: &mut App, k: KeyPress, now: u32) -> (e: Effect)
    requires
        old(app)@.wf(),
        is_time(now),
    ensures
        (final(app)@, e) == old(app)@.after_key(k, now),
        effect_ok(e),
        final(app)@.wf(),
{
    if !k.pressed {
        return Effect::Nothing;
    }
    match k.key {
        Key::Esc => Effect::Quit,
        Key::Tab | Key::Down => {
            app.sel_row = (app.sel_row + 1) % NROWS;
            Effect::Nothing
        },
        Key::BackTab | Key::Up => {
            app.adjust_or_nav_up();
            Effect::Nothing
        },
        Key::Left => {
            app.sel_drum = (app.sel_drum + 2) % 3;
            Effect::Nothing
        },
        Key::Right => {
            app.sel_drum = (app.sel_drum + 1) % 3;
            Effect::Nothing
        },
        Key::Enter => {
            app.learn = !app.learn;
            assert(app@ =~= (State { learn: app.learn, ..old(app)@ }));
            if app.learn {
                let mut text = "MIDI learn: send a CC for ".to_string();
                let name = control_name(app.cur_id());
                text.append(name.as_str());
                app.set_toast(text, now);
            }
            Effect::Nothing
        },
        Key::Char(c) => handle_char(app, c, k.ctrl, now),
        Key::Other => Effect::Nothing,
    }
}

// ---------- laws ----------

/// A key that goes down, without the control key.
pub open spec fn down(key: Key) -> KeyPress {
    KeyPress { key, ctrl: false, pressed: true }
}

impl State {
    /// After `n` presses of one key.
    pub open spec fn after_presses(self, key: Key, n: nat, now: u32) -> State
        decreases n,
    {
        if n == 0 {
            self
        } else {
            self.after_presses(key, (n - 1) as nat, now).after_key(down(key), now).0
        }
    }
}

/// The program ends on Esc and on Ctrl-C, and on no other key; the panel stays as it is.
pub proof fn law_quit_keys(s: State, k: KeyPress, now: u32)
    ensures
        s.after_key(k, now).1 == Effect::Quit ==> s.after_key(k, now).0 == s,
        s.after_key(k, now).1 == Effect::Quit <==> k.pressed && (k.key == Key::Esc || (k.key
            == Key::Char('c') && k.ctrl)),
{
}

/// Up undoes Down, and BackTab undoes Tab, wherever the selection stands; and the other way round.
pub proof fn law_row_keys_undo(s: State, now: u32)
    requires
        s.wf(),
    ensures
        s.after_key(down(Key::Down), now).0.after_key(down(Key::Up), now).0 == s,
        s.after_key(down(Key::Up), now).0.after_key(down(Key::Down), now).0 == s,
        s.after_key(down(Key::Tab), now).0.after_key(down(Key::BackTab), now).0 == s,
        s.after_key(down(Key::BackTab), now).0.after_key(down(Key::Tab), now).0 == s,
{
    assert(s.with_row_moved(1).with_row_moved(-1) =~= s);
    assert(s.with_row_moved(-1).with_row_moved(1) =~= s);
}

/// Left undoes Right, and the other way round.
pub proof fn law_drum_keys_undo(s: State, now: u32)
    requires
        s.wf(),
    ensures
        s.after_key(down(Key::Right), now).0.after_key(down(Key::Left), now).0 == s,
        s.after_key(down(Key::Left), now).0.after_key(down(Key::Right), now).0 == s,
{
    assert(s.with_drum_moved(1).with_drum_moved(-1) =~= s);
    assert(s.with_drum_moved(-1).with_drum_moved(1) =~= s);
}

/// How far a key moves the selection down: one row by Down and Tab, one row back by Up and BackTab.
pub open spec fn row_step(key: Key) -> int {
    match key {
        Key::Down | Key::Tab => 1,
        Key::Up | Key::BackTab => -1,
        _ => 0,
    }
}

/// Down and Tab go through all rows in turn, Up and BackTab the other way, and nothing else changes.
#[verifier::spinoff_prover]
pub proof fn law_row_keys_go_round(s: State, key: Key, n: nat, now: u32)
    requires
        s.wf(),
        key == Key::Down || key == Key::Tab || key == Key::Up || key == Key::BackTab,
    ensures
        s.after_presses(key, n, now) == s.with_row_moved(row_step(key) * n),
        s.after_presses(key, NROWS as nat, now) == s,
{
    lemma_row_key(s, key, n, now);
    lemma_row_key(s, key, NROWS as nat, now);
    assert(s.with_row_moved(12) =~= s);
    assert(s.with_row_moved(-12) =~= s);
}

/// Moving twice is moving by the sum.
proof fn lemma_rows_add(s: State, a: int, b: int)
    ensures
        s.with_row_moved(a).with_row_moved(b) == s.with_row_moved(a + b),
{
    assert(((s.sel_row + a) % 12 + b) % 12 == (s.sel_row + (a + b)) % 12);
}

#[verifier::spinoff_prover]
proof fn lemma_row_key(s: State, key: Key, n: nat, now: u32)
    requires
        s.wf(),
        key == Key::Down || key == Key::Tab || key == Key::Up || key == Key::BackTab,
    ensures
        s.after_presses(key, n, now) == s.with_row_moved(row_step(key) * n),
    decreases n,
{
    let by = row_step(key);
    if n == 0 {
        assert(s.with_row_moved(0) =~= s);
    } else {
        let m = (n - 1) as nat;
        lemma_row_key(s, key, m, now);
        lemma_rows_add(s, by * m, by);
        assert(by * m + by == by * n) by (nonlinear_arith)
            requires
                n == m + 1,
        ;
    }
}

/// Right goes through all drums in turn, Left the other way, and nothing else changes.
#[verifier::spinoff_prover]
pub proof fn law_drum_arrows_go_round(s: State, n: nat, now: u32)
    requires
        s.wf(),
    ensures
        s.after_presses(Key::Right, n, now) == s.with_drum_moved(n as int),
        s.after_presses(Key::Left, n, now) == s.with_drum_moved(-n),
        s.after_presses(Key::Right, NDRUMS as nat, now) == s,
        s.after_presses(Key::Left, NDRUMS as nat, now) == s,
{
    lemma_drum_arrows(s, n, now);
    lemma_drum_arrows(s, NDRUMS as nat, now);
    assert(s.with_drum_moved(NDRUMS as int) =~= s);
    assert(s.with_drum_moved(-NDRUMS) =~= s);
}

proof fn lemma_drums_add(s: State, a: int, b: int)
    ensures
        s.with_drum_moved(a).with_drum_moved(b) == s.with_drum_moved(a + b),
{
    assert(((s.sel_drum + a) % 3 + b) % 3 == (s.sel_drum + (a + b)) % 3);
}

#[verifier::spinoff_prover]
proof fn lemma_drum_arrows(s: State, n: nat, now: u32)
    requires
        s.wf(),
    ensures
        s.after_presses(Key::Right, n, now) == s.with_drum_moved(n as int),
        s.after_presses(Key::Left, n, now) == s.with_drum_moved(-n),
    decreases n,
{
    if n == 0 {
        assert(s.with_drum_moved(0) =~= s);
    } else {
        lemma_drum_arrows(s, (n - 1) as nat, now);
        lemma_drums_add(s, n - 1, 1);
        lemma_drums_add(s, -(n - 1), -1);
    }
}

/// The keys that move the selection move no control and leave nothing to do.
pub proof fn law_navigation_moves_no_control(s: State, key: Key, now: u32, id: int)
    requires
        key == Key::Tab || key == Key::BackTab || key == Key::Up || key == Key::Down || key
            == Key::Left || key == Key::Right,
    ensures
        s.after_key(down(key), now).0.norm(id) == s.norm(id),
        s.after_key(down(key), now).1 == Effect::Nothing,
{
}

/// The key m goes through all choices of the channel in turn, and changes nothing else.
#[verifier::spinoff_prover]
pub proof fn law_channel_goes_round(s: State, n: nat, now: u32)
    requires
        s.wf(),
    ensures
        s.after_presses(Key::Char('m'), n, now) == s.with_channel_moved(n as int),
        s.after_presses(Key::Char('m'), CHANNEL_CHOICES as nat, now) == s,
{
    lemma_channel(s, n, now);
    lemma_channel(s, CHANNEL_CHOICES as nat, now);
    assert(s.with_channel_moved(17) =~= s);
}

/// Moving on twice is moving on by the sum.
proof fn lemma_channels_add(s: State, a: int, b: int)
    ensures
        s.with_channel_moved(a).with_channel_moved(b) == s.with_channel_moved(a + b),
{
    assert(((s.midi_channel + a) % 17 + b) % 17 == (s.midi_channel + (a + b)) % 17);
}

proof fn lemma_m_key(s: State, now: u32)
    ensures
        s.after_key(down(Key::Char('m')), now).0 == s.with_channel_moved(1),
{
}

#[verifier::spinoff_prover]
proof fn lemma_channel(s: State, n: nat, now: u32)
    requires
        s.wf(),
    ensures
        s.after_presses(Key::Char('m'), n, now) == s.with_channel_moved(n as int),
    decreases n,
{
    if n == 0 {
        assert(s.with_channel_moved(0) =~= s);
    } else {
        lemma_channel(s, (n - 1) as nat, now);
        lemma_m_key(s.with_channel_moved(n - 1), now);
        lemma_channels_add(s, n - 1, 1);
    }
}

/// Enter twice leaves learning as it was, and binds nothing.
pub proof fn law_learn_toggles(s: State, now: u32)
    requires
        s.wf(),
    ensures
        s.after_presses(Key::Enter, 2, now).learn == s.learn,
        s.after_presses(Key::Enter, 2, now).cc_map == s.cc_map,
{
    reveal_with_fuel(State::after_presses, 3);
}

/// The key of a drum hits that drum, selects it and moves no control.
pub proof fn law_drum_key_hits(s: State, c: char, now: u32)
    requires
        s.wf(),
        drum_of_key(c) is Some,
    ensures
        ({
            let drum = drum_of_key(c)->0;
            let (after, e) = s.after_key(down(Key::Char(c)), now);
            &&& e == Effect::Play { drum, velocity: KEY_VELOCITY }
            &&& after.sel_drum == drum
            &&& after.flash[drum as int] == now
            &&& forall|id: int| after.norm(id) == s.norm(id)
        }),
{
}

/// Levels that are all numbers stay so after every key.
pub proof fn law_keys_keep_numbers(s: State, k: KeyPress, now: u32)
    requires
        s.wf(),
        s.numeric(),
    ensures
        s.after_key(k, now).0.numeric(),
{
    law_adjust_keeps_numbers(s, 1);
    law_adjust_keeps_numbers(s, -1);
}

/// Down and Tab go to the row below, and from the last to the first; Up and BackTab go to the row
/// above, and from the first to the last. Nothing but the row changes.
pub proof fn law_row_keys_step(s: State, key: Key, now: u32)
    requires
        s.wf(),
        key == Key::Down || key == Key::Tab || key == Key::Up || key == Key::BackTab,
    ensures
        ({
            let t = s.after_key(down(key), now).0;
            &&& t == (State { sel_row: t.sel_row, ..s })
            &&& (key == Key::Down || key == Key::Tab) && s.sel_row < 11 ==> t.sel_row == s.sel_row
                + 1
            &&& (key == Key::Down || key == Key::Tab) && s.sel_row == 11 ==> t.sel_row == 0
            &&& (key == Key::Up || key == Key::BackTab) && s.sel_row > 0 ==> t.sel_row == s.sel_row
                - 1
            &&& (key == Key::Up || key == Key::BackTab) && s.sel_row == 0 ==> t.sel_row == 11
        }),
{
}

/// Right goes to the next drum, and from the last to the first; Left goes to the one before, and
/// from the first to the last. Nothing but the drum changes.
pub proof fn law_drum_arrows_step(s: State, now: u32)
    requires
        s.wf(),
    ensures
        ({
            let r = s.after_key(down(Key::Right), now).0;
            let l = s.after_key(down(Key::Left), now).0;
            &&& r == (State { sel_drum: r.sel_drum, ..s })
            &&& l == (State { sel_drum: l.sel_drum, ..s })
            &&& s.sel_drum < 2 ==> r.sel_drum == s.sel_drum + 1
            &&& s.sel_drum == 2 ==> r.sel_drum == 0
            &&& s.sel_drum > 0 ==> l.sel_drum == s.sel_drum - 1
            &&& s.sel_drum == 0 ==> l.sel_drum == 2
        }),
{
}

/// The key m goes from all channels to the first one, on from channel to channel, and from the last
/// back to all. Nothing but the channel changes.
pub proof fn law_channel_key_steps(s: State, now: u32)
    requires
        s.wf(),
    ensures
        ({
            let (t, e) = s.after_key(down(Key::Char('m')), now);
            &&& t == (State { midi_channel: t.midi_channel, ..s })
            &&& s.midi_channel < 16 ==> t.midi_channel == s.midi_channel + 1
            &&& s.midi_channel == 16 ==> t.midi_channel == 0
            &&& e == Effect::Nothing
        }),
{
}

/// The keys 1, 2 and 3 select the drum of that number, and do nothing else.
pub proof fn law_digit_keys_select(s: State, c: char, now: u32)
    requires
        '1' <= c <= '3',
    ensures
        ({
            let (t, e) = s.after_key(down(Key::Char(c)), now);
            &&& t == (State { sel_drum: t.sel_drum, ..s })
            &&& c == '1' ==> t.sel_drum == 0
            &&& c == '2' ==> t.sel_drum == 1
            &&& c == '3' ==> t.sel_drum == 2
            &&& e == Effect::Nothing
        }),
{
}

/// The keys = and + move the selected control up by a step, - and _ move it down by a step. The
/// other controls, the selection and all the rest stay as they are.
pub proof fn law_step_keys(s: State, c: char, now: u32, other: int)
    requires
        s.wf(),
        c == '=' || c == '+' || c == '-' || c == '_',
        0 <= other < 30,
        other != s.cur_id(),
    ensures
        ({
            let id = s.cur_id();
            let d: int = if c == '=' || c == '+' {
                1
            } else {
                -1
            };
            let (t, e) = s.after_key(down(Key::Char(c)), now);
            &&& id != 28 ==> t.norm(id) == super::nudged(s.norm(id), d)
            &&& id == 28 ==> (t.bits_idx - s.bits_idx - d) % 6 == 0
            &&& t.norm(other) == s.norm(other)
            &&& super::same_but_levels(s, t)
            &&& e == Effect::Moved { id: id as usize }
        }),
{
    let d: int = if c == '=' || c == '+' {
        1
    } else {
        -1
    };
    super::law_adjust_moves_the_selected(s, d);
    super::law_adjust_moves_one(s, d, other);
}

/// A key of a drum changes nothing but the selected drum and the time of its last hit.
pub proof fn law_drum_keys_leave_the_rest(s: State, c: char, now: u32, other: int)
    requires
        s.wf(),
        drum_of_key(c) is Some,
        0 <= other < 3,
        other != drum_of_key(c)->0,
    ensures
        ({
            let t = s.after_key(down(Key::Char(c)), now).0;
            &&& t.flash[other] == s.flash[other]
            &&& t.sel_row == s.sel_row
            &&& super::same_levels(s, t)
            &&& super::same_but_levels_and_selection(s, State { flash: s.flash, ..t })
        }),
{
}

/// Enter asks for a controller for the selected control by its name, or stops waiting for one.
/// Nothing else changes but the notice.
pub proof fn law_enter(s: State, now: u32)
    requires
        s.wf(),
    ensures
        ({
            let (t, e) = s.after_key(down(Key::Enter), now);
            &&& t.learn != s.learn
            &&& s.learn ==> t == (State { learn: false, ..s })
            &&& !s.learn ==> t.toast == Some("MIDI learn: send a CC for "@ + name_of(s.cur_id()))
            &&& t == (State { learn: t.learn, toast: t.toast, toast_until: t.toast_until, ..s })
            &&& e == Effect::Nothing
        }),
{
}

/// A key that comes up does nothing, and neither does one that has no use.
pub proof fn law_other_keys_do_nothing(s: State, k: KeyPress, now: u32)
    requires
        !k.pressed || k.key == Key::Other || (k.key matches Key::Char(c) && c != '=' && c != '+' && c
            != '-' && c != '_' && c != 'm' && c != '1' && c != '2' && c != '3' && drum_of_key(c)
            is None && !(c == 'c' && k.ctrl)),
    ensures
        s.after_key(k, now) == (s, Effect::Nothing),
{
}

/// The control key makes a difference with c alone.
pub proof fn law_control_key_is_for_c(s: State, key: Key, now: u32)
    requires
        key != Key::Char('c'),
    ensures
        s.after_key(KeyPress { key, ctrl: true, pressed: true }, now) == s.after_key(
            down(key),
            now,
        ),
{
}

} // verus!
