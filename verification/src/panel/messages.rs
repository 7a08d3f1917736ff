//! What MIDI messages do.

use vstd::prelude::*;
use vstd::string::StringExecFns;

use super::{effect_ok, is_time, App, Effect, State};
use crate::arith::{divide, is_nearest, law_nearest_exists, lemma_ratio_keeps_order, one, ratio, units};
use crate::ccmap::CONTROLS;
use crate::controls::{control_name, name_of, NDRUMS, NROWS};
use crate::midi::{has_text, law_text_is_found, MidiMsg};
use crate::notes::{drum_for_semitone, drum_of};
use crate::single::{clamped, ONE, ZERO};
use crate::text::{all_digits, decimal, is_digit, lemma_decimal_digits, push_decimal};

verus! {

broadcast use vstd::std_specs::hash::group_hash_axioms;

/// A note in words.
pub open spec fn note_text(note: u8, vel: u8) -> Seq<char> {
    "note "@ + decimal(note as nat) + " v"@ + decimal(vel as nat)
}

/// A controller message in words.
pub open spec fn cc_text(cc: u8, value: u8) -> Seq<char> {
    "CC"@ + decimal(cc as nat) + " "@ + decimal(value as nat)
}

/// The notice of a new binding.
pub open spec fn bound_text(cc: u8, id: int) -> Seq<char> {
    "CC"@ + decimal(cc as nat) + " -> "@ + name_of(id)
}

/// The top of the range of the values of a message.
pub const TOP: u16 = 127;

/// The value of a message as a level.
pub open spec fn level_of(value: u8) -> u32 {
    ratio(value as int, TOP as int)
}

impl State {
    /// Messages on channel `ch`, counted from zero, are heard.
    pub open spec fn hears(self, ch: u8) -> bool {
        self.midi_channel == 0 || self.midi_channel == ch + 1
    }

    /// After a note that was heard. A note of velocity zero is the end of a note.
    pub open spec fn after_note(self, note: u8, vel: u8, now: u32) -> (State, Effect) {
        let told = State { last_midi: Some(note_text(note, vel)), ..self };
        match drum_of(note as int) {
            Some(drum) => if vel > 0 {
                (
                    told.with_hit(drum as int, now),
                    Effect::Play { drum, velocity: level_of(vel) },
                )
            } else {
                (told, Effect::Nothing)
            },
            None => (told, Effect::Nothing),
        }
    }

    /// After a controller message that was heard. While learning, it binds its controller to the
    /// selected control; else it moves the control that its controller is bound to.
    pub open spec fn after_cc(self, cc: u8, value: u8, now: u32) -> (
        State,
        Effect,
    ) {
        let told = State { last_midi: Some(cc_text(cc, value)), ..self };
        if self.learn {
            (
                (State {
                    cc_map: self.cc_map.insert(cc, self.cur_id() as usize),
                    learn: false,
                    ..told
                }).with_toast(bound_text(cc, self.cur_id()), now),
                Effect::Save,
            )
        } else if self.cc_map.contains_key(cc) {
            let id = self.cc_map[cc];
            (told.with_norm(id as int, level_of(value)), Effect::Moved { id })
        } else {
            (told, Effect::Nothing)
        }
    }

    /// After a MIDI message.
    pub open spec fn after_midi(self, msg: MidiMsg, now: u32) -> (
        State,
        Effect,
    ) {
        match msg {
            MidiMsg::NoteOn { ch, note, vel } => if self.hears(ch) {
                self.after_note(note, vel, now)
            } else {
                (self, Effect::Nothing)
            },
            MidiMsg::Cc { ch, cc, value } => if self.hears(ch) {
                self.after_cc(cc, value, now)
            } else {
                (self, Effect::Nothing)
            },
        }
    }
}

/// A note in words.
fn note_words(note: u8, vel: u8) -> (r: String)
    ensures
        r@ == note_text(note, vel),
{
    let mut s = "note ".to_string();
    push_decimal(&mut s, note as usize);
    s.append(" v");
    push_decimal(&mut s, vel as usize);
    s
}

/// A controller message in words.
fn cc_words(cc: u8, value: u8) -> (r: String)
    ensures
        r@ == cc_text(cc, value),
{
    let mut s = "CC".to_string();
    push_decimal(&mut s, cc as usize);
    s.append(" ");
    push_decimal(&mut s, value as usize);
    s
}

/// The notice of a new binding.
fn bound_words(cc: u8, id: usize) -> (r: String)
    requires
        id < crate::ccmap::CONTROLS,
    ensures
        r@ == bound_text(cc, id as int),
{
    let mut s = "CC".to_string();
    push_decimal(&mut s, cc as usize);
    s.append(" -> ");
    let name = control_name(id);
    s.append(name.as_str());
    s
}

impl App {
    /// Whether messages on channel `ch`, counted from zero, are heard.
    fn channel_ok(&self, ch: u8) -> (r: bool)
        ensures
            r == self@.hears(ch),
    {
        self.midi_channel == 0 || self.midi_channel as u16 == ch as u16 + 1
    }

    /// Handles a MIDI message.
    pub fn handle_midi(&mut self, msg: MidiMsg, now: u32) -> (e: Effect)
        requires
            old(self)@.wf(),
            is_time(now),
        ensures
            (final(self)@, e) == old(self)@.after_midi(msg, now),
            effect_ok(e),
            final(self)@.wf(),
    {
        match msg {
            MidiMsg::NoteOn { ch, note, vel } => {
                if !self.channel_ok(ch) {
                    return Effect::Nothing;
                }
                self.last_midi = Some(note_words(note, vel));
                assert(self@ =~= (State {
                    last_midi: Some(note_text(note, vel)),
                    ..old(self)@
                }));
                if vel > 0 {
                    if let Some(drum) = drum_for_semitone(note as i32) {
                        let _ = self.trigger(drum, now);
                        return Effect::Play { drum, velocity: divide(vel as u16, TOP) };
                    }
                }
                Effect::Nothing
            },
            MidiMsg::Cc { ch, cc, value } => {
                if !self.channel_ok(ch) {
                    return Effect::Nothing;
                }
                self.last_midi = Some(cc_words(cc, value));
                assert(self@ =~= (State { last_midi: Some(cc_text(cc, value)), ..old(self)@ }));
                if self.learn {
                    let id = self.cur_id();
                    self.cc_map.insert(cc, id);
                    self.learn = false;
                    assert(self@ =~= (State {
                        last_midi: Some(cc_text(cc, value)),
                        cc_map: old(self)@.cc_map.insert(cc, id),
                        learn: false,
                        ..old(self)@
                    }));
                    self.set_toast(bound_words(cc, id), now);
                    return Effect::Save;
                }
                let target: Option<usize> = match self.cc_map.get(&cc) {
                    Some(id) => Some(*id),
                    None => None,
                };
                match target {
                    Some(id) => {
                        let level = divide(value as u16, TOP);
                        self.set_norm(id, level);
                        Effect::Moved { id }
                    },
                    None => Effect::Nothing,
                }
            },
        }
    }
}

// ---------- laws ----------

/// A message on a channel that is not listened to changes nothing.
pub proof fn law_other_channels_are_ignored(
    s: State,
    msg: MidiMsg,
    now: u32,
)
    requires
        s.midi_channel != 0,
        msg matches MidiMsg::NoteOn { ch, .. } ==> ch + 1 != s.midi_channel,
        msg matches MidiMsg::Cc { ch, .. } ==> ch + 1 != s.midi_channel,
    ensures
        s.after_midi(msg, now) == (s, Effect::Nothing),
{
}

/// A note of velocity zero never sounds a drum.
pub proof fn law_note_end_is_silent(s: State, ch: u8, note: u8, now: u32)
    ensures
        s.after_midi(MidiMsg::NoteOn { ch, note, vel: 0 }, now).1 == Effect::Nothing,
        s.after_midi(MidiMsg::NoteOn { ch, note, vel: 0 }, now).0.flash == s.flash,
{
}

/// A controller that was learned moves the control that was selected when it was learned, wherever
/// the selection has gone since. The control takes the level that the message asks for, and no other
/// control moves.
pub proof fn law_learned_controller_moves_control(
    s: State,
    ch: u8,
    cc: u8,
    first: u8,
    learned_at: u32,
    sel_drum: int,
    sel_row: int,
    value: u8,
    now: u32,
    other: int,
)
    requires
        s.wf(),
        s.learn,
        s.hears(ch),
        0 <= sel_drum < NDRUMS,
        0 <= sel_row < NROWS,
        0 <= other < CONTROLS,
    ensures
        ({
            let id = s.cur_id();
            let (learned, e) = s.after_midi(MidiMsg::Cc { ch, cc, value: first }, learned_at);
            let later = State { sel_drum, sel_row, ..learned };
            let (moved, e2) = later.after_midi(MidiMsg::Cc { ch, cc, value }, now);
            &&& e == Effect::Save
            &&& !learned.learn
            &&& learned.cc_map[cc] == id
            &&& forall|c: int| learned.norm(c) == s.norm(c)
            &&& e2 == Effect::Moved { id: id as usize }
            &&& moved.norm(id) == super::settled(id, level_of(value))
            &&& other != id ==> moved.norm(other) == s.norm(other)
            &&& moved.sel_drum == sel_drum
            &&& moved.sel_row == sel_row
        }),
{
    let id = s.cur_id();
    let learned = s.after_midi(MidiMsg::Cc { ch, cc, value: first }, learned_at).0;
    assert(learned.wf());
    let later = State { sel_drum, sel_row, ..learned };
    let told = State { last_midi: Some(cc_text(cc, value)), ..later };
    super::law_set_then_read(told, id, level_of(value));
    if other != id {
        super::law_set_moves_one(told, id, level_of(value), other);
    }
}

/// The values from 0 to 127 span the levels from 0 to 1, in order, and values above are as good as
/// 127.
pub proof fn law_values_span_levels(a: u8, b: u8)
    requires
        a <= b,
    ensures
        level_of(0) == ZERO,
        level_of(127) == ONE,
        level_of(a) <= level_of(b),
        b <= 127 ==> level_of(b) <= ONE,
        a >= 127 ==> clamped(level_of(a)) == ONE,
{
    lemma_ratio_keeps_order(0, 127, 127);
    lemma_ratio_keeps_order(a as nat, b as nat, 127);
    if b <= 127 {
        lemma_ratio_keeps_order(b as nat, 127, 127);
    }
    if a >= 127 {
        lemma_ratio_keeps_order(127, a as nat, 127);
    }
}

/// A message never binds more than one controller, and only while learning.
pub proof fn law_bindings_change_only_by_learning(
    s: State,
    msg: MidiMsg,
    now: u32,
    other: u8,
)
    requires
        !s.learn || !(msg matches MidiMsg::Cc { cc, .. } && cc == other),
    ensures
        s.after_midi(msg, now).0.cc_map.contains_key(other) == s.cc_map.contains_key(
            other,
        ),
        s.cc_map.contains_key(other) ==> s.after_midi(msg, now).0.cc_map[other]
            == s.cc_map[other],
{
}

/// A binding that was learned is still there after the bindings were saved and loaded again.
pub proof fn law_learned_binding_survives(
    s: State,
    ch: u8,
    cc: u8,
    value: u8,
    now: u32,
)
    requires
        s.wf(),
        s.learn,
        s.hears(ch),
    ensures
        ({
            let learned = s.after_midi(MidiMsg::Cc { ch, cc, value }, now).0;
            let loaded = crate::ccmap::bindings_in(crate::ccmap::text_of(learned.cc_map));
            &&& loaded == learned.cc_map
            &&& loaded.contains_key(cc)
            &&& loaded[cc] == s.cur_id()
        }),
{
    let learned = s.after_midi(MidiMsg::Cc { ch, cc, value }, now).0;
    crate::ccmap::law_save_load_round_trip(learned.cc_map);
}

/// A note that is heard plays its drum as hard as it was played, whatever its octave.
pub proof fn law_note_plays_drum(
    s: State,
    ch: u8,
    note: u8,
    vel: u8,
    now: u32,
)
    requires
        s.wf(),
        s.hears(ch),
        vel > 0,
    ensures
        ({
            let e = s.after_midi(MidiMsg::NoteOn { ch, note, vel }, now).1;
            let velocity = level_of(vel);
            &&& note % 12 == 0 ==> e == Effect::Play { drum: 0, velocity }
            &&& note % 12 == 2 ==> e == Effect::Play { drum: 1, velocity }
            &&& note % 12 == 4 ==> e == Effect::Play { drum: 2, velocity }
            &&& note % 12 != 0 && note % 12 != 2 && note % 12 != 4 ==> e == Effect::Nothing
        }),
{
}

/// Levels that are all numbers stay so after every message.
pub proof fn law_messages_keep_numbers(s: State, msg: MidiMsg, now: u32)
    requires
        s.wf(),
        s.numeric(),
    ensures
        s.after_midi(msg, now).0.numeric(),
{
    if let MidiMsg::Cc { cc, value, .. } = msg {
        if s.cc_map.contains_key(cc) {
            lemma_ratio_keeps_order(0, value as nat, TOP as nat);
            let told = State { last_midi: Some(cc_text(cc, value)), ..s };
            super::law_set_keeps_numbers(told, s.cc_map[cc] as int, level_of(value));
        }
    }
}

/// A level of a message is as close to its share of the range as numbers get.
pub proof fn law_values_are_shares(value: u8)
    ensures
        is_nearest(value as nat * one(), 127, level_of(value)),
{
    let (n, o) = (value as nat, one());
    crate::arith::lemma_one();
    vstd::arithmetic::power2::lemma2_to64();
    crate::arith::lemma_increasing(crate::arith::VAST, crate::single::LARGEST);
    let top = units(crate::single::LARGEST);
    assert(n * o <= top * 127) by (nonlinear_arith)
        requires
            n <= 255,
            top >= 0x1_0000_0000_0000_0000 * o,
            o >= 0,
    ;
    law_nearest_exists(n * o, 127);
}

/// A note changes nothing but what was last heard and, where it plays a drum, the selected drum and
/// the time of its hit.
pub proof fn law_note_leaves_the_rest(s: State, ch: u8, note: u8, vel: u8, now: u32, other: int)
    requires
        s.wf(),
        s.hears(ch),
        0 <= other < 3,
    ensures
        ({
            let (t, e) = s.after_midi(MidiMsg::NoteOn { ch, note, vel }, now);
            &&& t.last_midi == Some(note_text(note, vel))
            &&& e == Effect::Nothing ==> t == (State { last_midi: t.last_midi, ..s })
            &&& e matches Effect::Play { drum, velocity } ==> t.sel_drum == drum
                && t.flash[drum as int] == now && velocity == level_of(vel)
            &&& !(e matches Effect::Play { drum, .. } && drum == other) ==> t.flash[other]
                == s.flash[other]
            &&& t.sel_row == s.sel_row
            &&& super::same_levels(s, t)
            &&& super::same_but_levels_and_selection(
                s,
                State { flash: s.flash, last_midi: s.last_midi, ..t },
            )
        }),
{
}

/// A controller that is bound moves its control to the level of the value, and nothing else but what
/// was last heard changes. One that is not bound moves nothing.
pub proof fn law_controller_moves_its_control(
    s: State,
    ch: u8,
    cc: u8,
    value: u8,
    now: u32,
    other: int,
)
    requires
        s.wf(),
        s.hears(ch),
        !s.learn,
        0 <= other < 30,
    ensures
        ({
            let (t, e) = s.after_midi(MidiMsg::Cc { ch, cc, value }, now);
            let id = s.cc_map[cc] as int;
            &&& t.last_midi == Some(cc_text(cc, value))
            &&& s.cc_map.contains_key(cc) ==> t.norm(id) == super::settled(id, level_of(value)) && e
                == Effect::Moved { id: id as usize }
            &&& !(s.cc_map.contains_key(cc) && other == id) ==> t.norm(other) == s.norm(other)
            &&& !s.cc_map.contains_key(cc) ==> super::same_levels(s, t) && e == Effect::Nothing
            &&& super::same_but_levels(s, State { last_midi: s.last_midi, ..t })
        }),
{
    let told = State { last_midi: Some(cc_text(cc, value)), ..s };
    if s.cc_map.contains_key(cc) {
        let id = s.cc_map[cc] as int;
        super::law_set_then_read(told, id, level_of(value));
        if other != id {
            super::law_set_moves_one(told, id, level_of(value), other);
        }
    }
}

/// While learning, a controller is bound to the selected control, which is announced by its name, and
/// moves nothing.
pub proof fn law_learning_binds(s: State, ch: u8, cc: u8, value: u8, now: u32)
    requires
        s.wf(),
        s.hears(ch),
        s.learn,
    ensures
        ({
            let (t, e) = s.after_midi(MidiMsg::Cc { ch, cc, value }, now);
            &&& t.cc_map.contains_key(cc) && t.cc_map[cc] == s.cur_id()
            &&& t.last_midi == Some(cc_text(cc, value))
            &&& !t.learn
            &&& t.toast == Some("CC"@ + decimal(cc as nat) + " -> "@ + name_of(s.cur_id()))
            &&& t == (State {
                cc_map: t.cc_map,
                learn: false,
                toast: t.toast,
                toast_until: t.toast_until,
                last_midi: t.last_midi,
                ..s
            })
            &&& e == Effect::Save
        }),
{
}

/// Every channel is heard while all are listened to; else the one that is chosen, and no other. So
/// counting on from all channels comes to each in turn.
pub proof fn law_channels_are_heard(s: State, ch: u8, other: u8)
    requires
        ch < 16,
        other != ch,
    ensures
        (State { midi_channel: 0, ..s }).hears(ch),
        (State { midi_channel: 0, ..s }).with_channel_moved(ch + 1).hears(ch),
        !(State { midi_channel: 0, ..s }).with_channel_moved(ch + 1).hears(other),
{
}

/// What is heard is told by its two numbers, with fixed words before and between them and nothing
/// behind; so notes and controller messages that differ are told in different words.
pub proof fn law_words_tell_messages_apart(a: u8, b: u8, c: u8, d: u8)
    ensures
        has_text(note_text(a, b), decimal(a as nat)) && has_text(note_text(a, b), decimal(b as nat)),
        has_text(cc_text(a, b), decimal(a as nat)) && has_text(cc_text(a, b), decimal(b as nat)),
        note_text(a, b).len() == 7 + decimal(a as nat).len() + decimal(b as nat).len(),
        cc_text(a, b).len() == 3 + decimal(a as nat).len() + decimal(b as nat).len(),
        note_text(a, b).take(5) == note_text(c, d).take(5),
        cc_text(a, b).take(2) == cc_text(c, d).take(2),
        note_text(a, b) == note_text(c, d) ==> a == c && b == d,
        cc_text(a, b) == cc_text(c, d) ==> a == c && b == d,
        note_text(a, b) != cc_text(c, d),
{
    reveal_strlit("note ");
    reveal_strlit(" v");
    reveal_strlit("CC");
    reveal_strlit(" ");
    let (p, q) = (decimal(a as nat), decimal(b as nat));
    let (r, t) = (decimal(c as nat), decimal(d as nat));
    let none = Seq::<char>::empty();
    law_text_is_found("note "@, p, " v"@ + q, none);
    assert(note_text(a, b) =~= "note "@ + p + (" v"@ + q));
    law_text_is_found("note "@ + p + " v"@, q, none, none);
    assert(note_text(a, b) =~= "note "@ + p + " v"@ + q + none);
    law_text_is_found("CC"@, p, " "@ + q, none);
    assert(cc_text(a, b) =~= "CC"@ + p + (" "@ + q));
    law_text_is_found("CC"@ + p + " "@, q, none, none);
    assert(cc_text(a, b) =~= "CC"@ + p + " "@ + q + none);
    lemma_decimal_digits(a as nat);
    lemma_decimal_digits(b as nat);
    lemma_decimal_digits(c as nat);
    lemma_decimal_digits(d as nat);
    if note_text(a, b) == note_text(c, d) {
        lemma_parts("note "@, " v"@, p, q, r, t);
    }
    if cc_text(a, b) == cc_text(c, d) {
        lemma_parts("CC"@, " "@, p, q, r, t);
    }
    assert(note_text(a, b).take(5) =~= "note "@);
    assert(note_text(c, d).take(5) =~= "note "@);
    assert(cc_text(a, b).take(2) =~= "CC"@);
    assert(cc_text(c, d).take(2) =~= "CC"@);
    assert(note_text(a, b)[0] == 'n');
    assert(cc_text(c, d)[0] == 'C');
}

/// Digits end where a gap begins.
proof fn lemma_parts(
    head: Seq<char>,
    gap: Seq<char>,
    p: Seq<char>,
    q: Seq<char>,
    r: Seq<char>,
    t: Seq<char>,
)
    requires
        all_digits(p),
        all_digits(r),
        gap.len() > 0,
        gap[0] == ' ',
        head + p + gap + q == head + r + gap + t,
    ensures
        p == r,
        q == t,
{
    let text = head + p + gap + q;
    let n = head.len() as int;
    if p.len() < r.len() {
        assert(text[n + p.len()] == ' ');
        assert(text[n + p.len()] == r[p.len() as int]);
        assert(is_digit(r[p.len() as int]));
    } else if r.len() < p.len() {
        assert(text[n + r.len()] == ' ');
        assert(text[n + r.len()] == p[r.len() as int]);
        assert(is_digit(p[r.len() as int]));
    }
    assert(text.subrange(n, n + p.len()) =~= p);
    assert(text.subrange(n, n + p.len()) =~= r);
    let k = n + p.len() + gap.len();
    assert(text.subrange(k, text.len() as int) =~= q);
    assert(text.subrange(k, text.len() as int) =~= t);
}

} // verus!
