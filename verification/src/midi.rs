//! MIDI messages, and which MIDI input to listen to.

use vstd::prelude::*;

use crate::text::chars_of;

verus! {

/// A MIDI message that the synth acts on. `ch` counts channels from zero.
#[derive(Clone, Copy, Debug, PartialEq, Eq, Structural)]
pub enum MidiMsg {
    NoteOn { ch: u8, note: u8, vel: u8 },
    Cc { ch: u8, cc: u8, value: u8 },
}

/// The message that raw bytes hold. The upper four bits of the first byte tell the kind, the
/// lower four the channel; two data bytes follow, and what comes after them does not matter.
pub open spec fn message_in(bytes: Seq<u8>) -> Option<MidiMsg> {
    if bytes.len() < 3 {
        None
    } else {
        let kind = bytes[0] / 16;
        let ch = bytes[0] % 16;
        if kind == 9 {
            Some(MidiMsg::NoteOn { ch, note: bytes[1], vel: bytes[2] })
        } else if kind == 11 {
            Some(MidiMsg::Cc { ch, cc: bytes[1], value: bytes[2] })
        } else {
            None
        }
    }
}

/// Reads a message from raw bytes.
pub fn parse_midi(bytes: &[u8]) -> (r: Option<MidiMsg>)
    ensures
        r == message_in(bytes@),
{
    if bytes.len() < 3 {
        return None;
    }
    let status = bytes[0];
    let ch = status & 0x0F;
    assert(status & 0x0F == status % 16) by (bit_vector);
    assert(status & 0xF0 == 0x90 <==> status / 16 == 9) by (bit_vector);
    assert(status & 0xF0 == 0xB0 <==> status / 16 == 11) by (bit_vector);
    match status & 0xF0 {
        0x90 => Some(MidiMsg::NoteOn { ch, note: bytes[1], vel: bytes[2] }),
        0xB0 => Some(MidiMsg::Cc { ch, cc: bytes[1], value: bytes[2] }),
        _ => None,
    }
}

/// A message that arrives on any channel is read as the same message on that channel: the channel
/// never decides what kind of message it is.
pub proof fn law_channel_does_not_change_kind(bytes: Seq<u8>, ch: u8)
    requires
        bytes.len() >= 3,
        ch < 16,
    ensures
        message_in(bytes.update(0, (bytes[0] - bytes[0] % 16 + ch) as u8)) == match message_in(bytes) {
            Some(MidiMsg::NoteOn { ch: _, note, vel }) => Some(MidiMsg::NoteOn { ch, note, vel }),
            Some(MidiMsg::Cc { ch: _, cc, value }) => Some(MidiMsg::Cc { ch, cc, value }),
            None => None,
        },
{
}

// ---------- choice of the input port ----------

/// What `str::to_lowercase` makes of a text.
pub uninterp spec fn lowercase_of(s: Seq<char>) -> Seq<char>;

/// `str::to_lowercase` of std maps a text to its lower case by the Unicode tables; the result
/// depends on the text alone.
pub assume_specification[ str::to_lowercase ](s: &str) -> (r: String)
    ensures
        r@ == lowercase_of(s@),
;

/// `needle` stands in `hay` at position `i`.
pub open spec fn stands_at(hay: Seq<char>, needle: Seq<char>, i: int) -> bool {
    0 <= i && i + needle.len() <= hay.len() && hay.subrange(i, i + needle.len()) == needle
}

/// `needle` stands somewhere in `hay`.
pub open spec fn has_text(hay: Seq<char>, needle: Seq<char>) -> bool {
    exists|i: int| stands_at(hay, needle, i)
}

/// Whether `needle` stands in `hay` at position `at`.
fn matches_at(hay: &Vec<char>, needle: &Vec<char>, at: usize) -> (r: bool)
    requires
        at + needle@.len() <= hay@.len(),
    ensures
        r == stands_at(hay@, needle@, at as int),
{
    let ghost part = hay@.subrange(at as int, at + needle@.len());
    let total = hay.len();
    let mut k: usize = 0;
    while k < needle.len()
        invariant
            k <= needle@.len(),
            at + needle@.len() <= total,
            total == hay@.len(),
            part == hay@.subrange(at as int, at + needle@.len()),
            forall|q: int| 0 <= q < k ==> part[q] == #[trigger] needle@[q],
        decreases needle@.len() - k,
    {
        if hay[at + k] != needle[k] {
            assert(part[k as int] != needle@[k as int]);
            return false;
        }
        k = k + 1;
    }
    assert(part =~= needle@);
    true
}

/// Whether `needle` stands somewhere in `hay`.
pub fn contains_text(hay: &str, needle: &str) -> (r: bool)
    ensures
        r == has_text(hay@, needle@),
{
    let h = chars_of(hay);
    let n = chars_of(needle);
    if n.len() > h.len() {
        return false;
    }
    let last = h.len() - n.len();
    let mut i: usize = 0;
    while i <= last
        invariant
            h@ == hay@,
            n@ == needle@,
            last == h@.len() - n@.len(),
            last <= h.len(),
            i <= last + 1,
            forall|q: int| 0 <= q < i ==> !#[trigger] stands_at(hay@, needle@, q),
        decreases last + 1 - i,
    {
        if matches_at(&h, &n, i) {
            return true;
        }
        if i == last {
            return false;
        }
        i = i + 1;
    }
    false
}

/// A port of the drum machine that the synth is played from, by its name in lower case.
pub open spec fn is_preferred(lowered: Seq<char>) -> bool {
    has_text(lowered, "digitakt"@) || has_text(lowered, "elektron"@)
}

/// The names of ports, as texts; a port may have none.
pub open spec fn name_views(names: Seq<Option<String>>) -> Seq<Option<Seq<char>>> {
    Seq::new(
        names.len(),
        |i: int|
            match names[i] {
                Some(n) => Some(n@),
                None => None,
            },
    )
}

/// Port `i` has a name, and it is a preferred one.
pub open spec fn preferred_at(lowered: Seq<Option<Seq<char>>>, i: int) -> bool {
    lowered[i] matches Some(n) && is_preferred(n)
}

/// `choice` is the port to listen to: none without ports, else the first preferred one, else the
/// first one.
pub open spec fn is_choice(lowered: Seq<Option<Seq<char>>>, choice: Option<usize>) -> bool {
    match choice {
        None => lowered.len() == 0,
        Some(c) => {
            &&& c < lowered.len()
            &&& forall|i: int| 0 <= i < c ==> !#[trigger] preferred_at(lowered, i)
            &&& preferred_at(lowered, c as int) || (c == 0 && forall|i: int|
                0 <= i < lowered.len() ==> !#[trigger] preferred_at(lowered, i))
        },
    }
}

/// The port to listen to, from the ports' names in lower case.
pub fn preferred_port(lowered: &Vec<Option<String>>) -> (choice: Option<usize>)
    ensures
        is_choice(name_views(lowered@), choice),
{
    if lowered.len() == 0 {
        return None;
    }
    let ghost views = name_views(lowered@);
    let mut i: usize = 0;
    while i < lowered.len()
        invariant
            i <= lowered@.len(),
            views == name_views(lowered@),
            forall|q: int| 0 <= q < i ==> !#[trigger] preferred_at(views, q),
        decreases lowered@.len() - i,
    {
        match &lowered[i] {
            Some(name) => {
                assert(views[i as int] == Some(name@));
                if contains_text(name.as_str(), "digitakt") || contains_text(
                    name.as_str(),
                    "elektron",
                ) {
                    assert(preferred_at(views, i as int));
                    return Some(i);
                }
            },
            None => {
                assert(views[i as int] is None);
            },
        }
        i = i + 1;
    }
    Some(0)
}

/// The names in lower case.
pub open spec fn lowered_views(names: Seq<Option<Seq<char>>>) -> Seq<Option<Seq<char>>> {
    Seq::new(
        names.len(),
        |i: int|
            match names[i] {
                Some(n) => Some(lowercase_of(n)),
                None => None,
            },
    )
}

/// The port to listen to, from the ports' names as they are.
pub fn choose_port(names: &Vec<Option<String>>) -> (choice: Option<usize>)
    ensures
        is_choice(lowered_views(name_views(names@)), choice),
{
    let mut lowered: Vec<Option<String>> = Vec::new();
    let mut i: usize = 0;
    while i < names.len()
        invariant
            i <= names@.len(),
            i == lowered@.len(),
            forall|q: int|
                0 <= q < i ==> #[trigger] name_views(lowered@)[q] == lowered_views(
                    name_views(names@),
                )[q],
        decreases names@.len() - i,
    {
        let ghost before = name_views(lowered@);
        let item: Option<String> = match &names[i] {
            Some(name) => Some(name.as_str().to_lowercase()),
            None => None,
        };
        lowered.push(item);
        assert forall|q: int| 0 <= q < i + 1 implies #[trigger] name_views(lowered@)[q]
            == lowered_views(name_views(names@))[q] by {
            if q < i {
                assert(before[q] == lowered_views(name_views(names@))[q]);
            }
        }
        i = i + 1;
    }
    assert(name_views(lowered@) =~= lowered_views(name_views(names@)));
    preferred_port(&lowered)
}

/// The name to show for the chosen port; one whose name cannot be had is shown as "midi".
pub fn port_label(name: Option<String>) -> (r: String)
    ensures
        r@ == match name {
            Some(n) => n@,
            None => "midi"@,
        },
{
    match name {
        Some(n) => n,
        None => "midi".to_string(),
    }
}

// ---------- laws ----------

/// Every message arrives as it was sent, on every channel: a note with its pitch and its velocity, a
/// controller message with its controller and its value, whatever follows.
pub proof fn law_messages_arrive_as_sent(ch: u8, a: u8, b: u8, rest: Seq<u8>)
    requires
        ch < 16,
    ensures
        message_in(seq![(0x90 + ch) as u8, a, b] + rest) == Some(
            MidiMsg::NoteOn { ch, note: a, vel: b },
        ),
        message_in(seq![(0xB0 + ch) as u8, a, b] + rest) == Some(
            MidiMsg::Cc { ch, cc: a, value: b },
        ),
{
    let n = seq![(0x90 + ch) as u8, a, b] + rest;
    let c = seq![(0xB0 + ch) as u8, a, b] + rest;
    assert(n[0] == 0x90 + ch && n[1] == a && n[2] == b);
    assert(c[0] == 0xB0 + ch && c[1] == a && c[2] == b);
}

/// Messages that differ in kind, channel or data are read as different messages.
pub proof fn law_messages_are_told_apart(x: Seq<u8>, y: Seq<u8>)
    requires
        message_in(x) is Some,
        message_in(x) == message_in(y),
    ensures
        x.take(3) == y.take(3),
{
    assert(x[0] == 16 * (x[0] / 16) + x[0] % 16);
    assert(y[0] == 16 * (y[0] / 16) + y[0] % 16);
    assert(x.take(3) =~= y.take(3));
}

/// Nothing is read from messages of other kinds, nor from too few bytes.
pub proof fn law_other_bytes_are_no_message(kind: int, low: int, rest: Seq<u8>, short: Seq<u8>)
    requires
        0 <= kind < 16,
        0 <= low < 16,
        kind != 9,
        kind != 11,
        short.len() < 3,
    ensures
        message_in(seq![(16 * kind + low) as u8] + rest) is None,
        message_in(short) is None,
{
    let x = seq![(16 * kind + low) as u8] + rest;
    assert(x[0] == 16 * kind + low);
}

/// A text is found wherever it stands, and only where it stands.
pub proof fn law_text_is_found(before: Seq<char>, needle: Seq<char>, after: Seq<char>, hay: Seq<char>)
    ensures
        has_text(before + needle + after, needle),
        has_text(hay, needle) ==> exists|a: Seq<char>, b: Seq<char>| hay == #[trigger] ((a + needle) + b),
{
    let whole = before + needle + after;
    let i = before.len() as int;
    assert(whole.subrange(i, i + needle.len()) =~= needle);
    assert(stands_at(whole, needle, i));
    if has_text(hay, needle) {
        let k = choose|k: int| stands_at(hay, needle, k);
        let (a, b) = (hay.take(k), hay.skip(k + needle.len()));
        assert(hay =~= (a + needle) + b);
    }
}

/// A port is preferred for one of two names anywhere in its own, and for nothing else.
pub proof fn law_preferred_names(before: Seq<char>, after: Seq<char>, name: Seq<char>)
    ensures
        is_preferred(before + "digitakt"@ + after),
        is_preferred(before + "elektron"@ + after),
        is_preferred(name) ==> has_text(name, "digitakt"@) || has_text(name, "elektron"@),
{
    law_text_is_found(before, "digitakt"@, after, name);
    law_text_is_found(before, "elektron"@, after, name);
}

/// There is one port to listen to where there are any, it is none of no ports, no preferred port comes
/// before it, and it is a preferred one if there is any.
pub proof fn law_choice_of_port(lowered: Seq<Option<Seq<char>>>, c: Option<usize>, d: Option<usize>, i: int)
    requires
        is_choice(lowered, c),
        is_choice(lowered, d),
        0 <= i < lowered.len(),
    ensures
        c == d,
        c is Some,
        c->0 < lowered.len(),
        preferred_at(lowered, i) ==> c->0 <= i && preferred_at(lowered, c->0 as int),
        (forall|k: int| 0 <= k < lowered.len() ==> !preferred_at(lowered, k)) ==> c->0 == 0,
{
    if preferred_at(lowered, c->0 as int) && preferred_at(lowered, d->0 as int) {
        if c->0 < d->0 {
            assert(!preferred_at(lowered, c->0 as int));
        } else if d->0 < c->0 {
            assert(!preferred_at(lowered, d->0 as int));
        }
    }
}

/// Each port is known by its own name in lower case, and a port without a name by none.
pub proof fn law_ports_keep_their_names(names: Seq<Option<String>>, i: int)
    requires
        0 <= i < names.len(),
    ensures
        lowered_views(name_views(names)).len() == names.len(),
        names[i] matches Some(n) ==> lowered_views(name_views(names))[i] == Some(lowercase_of(n@)),
        names[i] is None ==> lowered_views(name_views(names))[i] is None,
{
}

} // verus!
