//! The text form of the controller bindings: one `controller,control` line per binding.

use std::collections::HashMap;

use vstd::prelude::*;

use crate::text::{chars_of, decimal, is_digit, number_in, push_decimal, read_number};

verus! {

broadcast use vstd::std_specs::hash::group_hash_axioms;

/// Number of controls that a controller can be bound to.
pub const CONTROLS: usize = 30;

// ---------- reading ----------

/// Position of the first `c` in `s`, or the length of `s` where there is none.
pub open spec fn cut(s: Seq<char>, c: char) -> int
    decreases s.len(),
{
    if s.len() == 0 || s[0] == c {
        0
    } else {
        1 + cut(s.drop_first(), c)
    }
}

/// `s` without one carriage return at its end.
pub open spec fn without_cr(s: Seq<char>) -> Seq<char> {
    if s.len() > 0 && s.last() == '\r' {
        s.drop_last()
    } else {
        s
    }
}

/// The lines of a text. A line ends with a line feed, or with a carriage return and a line feed;
/// the last line may lack its end.
pub open spec fn lines(s: Seq<char>) -> Seq<Seq<char>>
    decreases s.len(),
    via lines_decreases
{
    let e = cut(s, '\n');
    if s.len() == 0 {
        seq![]
    } else if e == s.len() {
        seq![s]
    } else {
        seq![without_cr(s.take(e))] + lines(s.skip(e + 1))
    }
}

#[via_fn]
proof fn lines_decreases(s: Seq<char>) {
    lemma_cut(s, '\n');
}

/// The binding that a line states: a controller number, a comma and a control number, each up to
/// the next comma; what follows a second comma does not matter.
pub open spec fn binding_in(line: Seq<char>) -> Option<(u8, usize)> {
    let first = cut(line, ',');
    if first == line.len() {
        None
    } else {
        let rest = line.skip(first + 1);
        let cc = number_in(line.take(first), 255);
        let id = number_in(rest.take(cut(rest, ',')), usize::MAX as nat);
        if cc is Some && id is Some && id->0 < CONTROLS {
            Some((cc->0 as u8, id->0 as usize))
        } else {
            None
        }
    }
}

/// `m` after the bindings on the given lines, in order; lines that state none are passed over.
pub open spec fn bound(m: Map<u8, usize>, ls: Seq<Seq<char>>) -> Map<u8, usize>
    decreases ls.len(),
{
    if ls.len() == 0 {
        m
    } else {
        let next = match binding_in(ls[0]) {
            Some((cc, id)) => m.insert(cc, id),
            None => m,
        };
        bound(next, ls.drop_first())
    }
}

/// The bindings that a text states. A later line overrides an earlier one.
pub open spec fn bindings_in(text: Seq<char>) -> Map<u8, usize> {
    bound(Map::empty(), lines(text))
}

proof fn lemma_cut(s: Seq<char>, c: char)
    ensures
        0 <= cut(s, c) <= s.len(),
        forall|i: int| 0 <= i < cut(s, c) ==> #[trigger] s[i] != c,
        cut(s, c) < s.len() ==> s[cut(s, c)] == c,
    decreases s.len(),
{
    if s.len() != 0 && s[0] != c {
        lemma_cut(s.drop_first(), c);
        assert forall|i: int| 0 <= i < cut(s, c) implies #[trigger] s[i] != c by {
            if i > 0 {
                assert(s.drop_first()[i - 1] == s[i]);
            }
        }
    }
}

/// What `lemma_cut` says holds of one position only.
proof fn lemma_cut_at(s: Seq<char>, c: char, e: int)
    requires
        0 <= e <= s.len(),
        forall|i: int| 0 <= i < e ==> #[trigger] s[i] != c,
        e < s.len() ==> s[e] == c,
    ensures
        cut(s, c) == e,
{
    lemma_cut(s, c);
    let k = cut(s, c);
    if k < e {
        assert(s[k] != c);
    } else if e < k {
        assert(s[e] != c);
    }
}

/// Finds the first `c` from `from` up to `to`.
fn find(s: &Vec<char>, from: usize, to: usize, c: char) -> (e: usize)
    requires
        from <= to <= s@.len(),
    ensures
        from <= e <= to,
        e - from == cut(s@.subrange(from as int, to as int), c),
{
    let ghost part = s@.subrange(from as int, to as int);
    let mut e: usize = from;
    while e < to && s[e] != c
        invariant
            from <= e <= to <= s@.len(),
            part == s@.subrange(from as int, to as int),
            forall|i: int| 0 <= i < e - from ==> #[trigger] part[i] != c,
        decreases to - e,
    {
        assert(part[e - from] == s@[e as int]);
        e = e + 1;
    }
    proof {
        if e < to {
            assert(part[e - from] == s@[e as int]);
        }
        lemma_cut_at(part, c, e - from);
    }
    e
}

/// Reads the binding on the line from `from` up to `to`.
fn read_binding(s: &Vec<char>, from: usize, to: usize) -> (r: Option<(u8, usize)>)
    requires
        from <= to <= s@.len(),
    ensures
        r == binding_in(s@.subrange(from as int, to as int)),
{
    let ghost line = s@.subrange(from as int, to as int);
    let first = find(s, from, to, ',');
    if first == to {
        return None;
    }
    let second = find(s, first + 1, to, ',');
    proof {
        let rest = line.skip(first - from + 1);
        assert(rest =~= s@.subrange(first + 1, to as int));
        assert(line.take(first - from) =~= s@.subrange(from as int, first as int));
        assert(rest.take(second - first - 1) =~= s@.subrange(first + 1, second as int));
    }
    let cc = read_number(s, from, first, 255);
    let id = read_number(s, first + 1, second, usize::MAX);
    match (cc, id) {
        (Some(cc), Some(id)) => if id < CONTROLS {
            Some((cc as u8, id))
        } else {
            None
        },
        _ => None,
    }
}

/// Reads the bindings that a text states.
pub fn load_cc_map(text: &str) -> (m: HashMap<u8, usize>)
    ensures
        m@ == bindings_in(text@),
        bindings_valid(m@),
{
    let s = chars_of(text);
    let n = s.len();
    let mut m: HashMap<u8, usize> = HashMap::new();
    let mut pos: usize = 0;
    assert(s@.skip(0) =~= s@);
    while pos < n
        invariant
            n == s@.len(),
            pos <= n,
            bound(m@, lines(s@.skip(pos as int))) == bindings_in(s@),
        decreases n - pos,
    {
        let ghost rest = s@.skip(pos as int);
        assert(s@.subrange(pos as int, n as int) =~= rest);
        let e = find(&s, pos, n, '\n');
        let mut end = e;
        if e < n && end > pos && s[end - 1] == '\r' {
            end = end - 1;
        }
        let found = read_binding(&s, pos, end);
        proof {
            let line = s@.subrange(pos as int, end as int);
            let ls = lines(rest);
            if e == n {
                assert(line =~= rest);
                assert(ls.drop_first() =~= Seq::<Seq<char>>::empty());
            } else {
                assert(line =~= without_cr(rest.take(e - pos)));
                assert(rest.skip(e - pos + 1) =~= s@.skip(e + 1));
                assert(ls.drop_first() =~= lines(s@.skip(e + 1)));
            }
            assert(ls[0] == line);
        }
        match found {
            Some((cc, id)) => {
                m.insert(cc, id);
            },
            None => {},
        }
        if e == n {
            pos = n;
            assert(s@.skip(n as int) =~= Seq::<char>::empty());
        } else {
            pos = e + 1;
        }
    }
    assert(s@.skip(pos as int) =~= Seq::<char>::empty());
    proof {
        law_loaded_bindings_are_valid(text@);
    }
    m
}

// ---------- writing ----------

/// The line of one binding, with its end.
pub open spec fn binding_line(cc: u8, id: usize) -> Seq<char> {
    decimal(cc as nat).push(',') + decimal(id as nat).push('\n')
}

/// The lines of the bindings of controller `cc` and above, in the order of the controllers.
pub open spec fn lines_from(m: Map<u8, usize>, cc: int) -> Seq<char>
    decreases 256 - cc,
{
    if cc < 0 || cc > 255 {
        seq![]
    } else if m.contains_key(cc as u8) {
        binding_line(cc as u8, m[cc as u8]) + lines_from(m, cc + 1)
    } else {
        lines_from(m, cc + 1)
    }
}

/// The text that states the bindings `m`.
pub open spec fn text_of(m: Map<u8, usize>) -> Seq<char> {
    lines_from(m, 0)
}

/// Every binding names a control.
pub open spec fn bindings_valid(m: Map<u8, usize>) -> bool {
    forall|cc: u8| #[trigger] m.contains_key(cc) ==> m[cc] < CONTROLS
}

/// Writes the bindings as text, one line each, in the order of the controllers.
pub fn save_cc_map(m: &HashMap<u8, usize>) -> (s: String)
    ensures
        s@ == text_of(m@),
{
    let mut s = String::new();
    let mut cc: usize = 0;
    assert(s@ + lines_from(m@, 0) =~= text_of(m@));
    while cc < 256
        invariant
            cc <= 256,
            s@ + lines_from(m@, cc as int) == text_of(m@),
        decreases 256 - cc,
    {
        let key: u8 = cc as u8;
        match m.get(&key) {
            Some(id) => {
                let ghost before = s@;
                push_decimal(&mut s, cc);
                s.push(',');
                push_decimal(&mut s, *id);
                s.push('\n');
                assert(s@ =~= before + binding_line(key, *id));
                assert(s@ + lines_from(m@, cc + 1) =~= before + lines_from(m@, cc as int));
            },
            None => {},
        }
        cc = cc + 1;
    }
    assert(s@ =~= text_of(m@));
    s
}

// ---------- laws ----------

/// Every binding that can be read names a control.
pub proof fn law_loaded_bindings_are_valid(text: Seq<char>)
    ensures
        bindings_valid(bindings_in(text)),
{
    lemma_bound_valid(Map::empty(), lines(text));
}

proof fn lemma_bound_valid(m: Map<u8, usize>, ls: Seq<Seq<char>>)
    requires
        bindings_valid(m),
    ensures
        bindings_valid(bound(m, ls)),
    decreases ls.len(),
{
    if ls.len() != 0 {
        let next = match binding_in(ls[0]) {
            Some((cc, id)) => m.insert(cc, id),
            None => m,
        };
        lemma_bound_valid(next, ls.drop_first());
    }
}

/// The line of a binding, without its end, states that binding if it names a control.
proof fn lemma_line_states_binding(cc: u8, id: usize)
    ensures
        binding_in(binding_line(cc, id).drop_last()) == if id < CONTROLS {
            Some((cc, id))
        } else {
            None
        },
        cut(binding_line(cc, id), '\n') == binding_line(cc, id).len() - 1,
        binding_line(cc, id).len() >= 2,
        binding_line(cc, id)[binding_line(cc, id).len() - 2] != '\r',
{
    let a = decimal(cc as nat);
    let b = decimal(id as nat);
    let whole = binding_line(cc, id);
    let line = whole.drop_last();
    crate::text::lemma_decimal_round_trip(cc as nat, 255);
    crate::text::lemma_decimal_round_trip(id as nat, usize::MAX as nat);
    crate::text::lemma_decimal_digits(cc as nat);
    crate::text::lemma_decimal_digits(id as nat);
    assert forall|i: int| 0 <= i < a.len() implies line[i] != ',' by {
        assert(is_digit(a[i]));
    }
    lemma_cut_at(line, ',', a.len() as int);
    let rest = line.skip(a.len() as int + 1);
    assert(rest =~= b);
    assert forall|i: int| 0 <= i < b.len() implies b[i] != ',' by {
        assert(is_digit(b[i]));
    }
    lemma_cut_at(b, ',', b.len() as int);
    assert(b.take(b.len() as int) =~= b);
    assert(line.take(a.len() as int) =~= a);
    assert forall|i: int| 0 <= i < whole.len() - 1 implies whole[i] != '\n' by {
        if i < a.len() {
            assert(is_digit(a[i]));
            assert(whole[i] == a[i]);
        } else if i > a.len() {
            assert(is_digit(b[i - a.len() - 1]));
            assert(whole[i] == b[i - a.len() - 1]);
        }
    }
    lemma_cut_at(whole, '\n', whole.len() - 1);
    assert(is_digit(b[b.len() - 1]));
    assert(whole[whole.len() - 2] == b[b.len() - 1]);
}

/// Reading the line of a binding in front of more text.
proof fn lemma_lines_of_binding(cc: u8, id: usize, more: Seq<char>)
    ensures
        lines(binding_line(cc, id) + more) == seq![binding_line(cc, id).drop_last()] + lines(more),
{
    let whole = binding_line(cc, id);
    lemma_line_states_binding(cc, id);
    lemma_cut(whole, '\n');
    let s = whole + more;
    let e = whole.len() - 1;
    assert forall|i: int| 0 <= i < e implies s[i] != '\n' by {
        assert(s[i] == whole[i]);
    }
    assert(s[e] == whole[e]);
    lemma_cut_at(s, '\n', e);
    assert(s.take(e) =~= whole.drop_last());
    assert(s.take(e).last() == whole[whole.len() - 2]);
    assert(s.skip(e + 1) =~= more);
}

/// The bindings that name a control.
pub open spec fn named(m: Map<u8, usize>) -> Map<u8, usize> {
    Map::new(|cc: u8| m.contains_key(cc) && m[cc] < CONTROLS, |cc: u8| m[cc])
}

proof fn lemma_round_trip_from(m: Map<u8, usize>, start: Map<u8, usize>, cc: int)
    requires
        0 <= cc <= 256,
        forall|k: u8| k < cc ==> (#[trigger] start.contains_key(k) <==> named(m).contains_key(k)),
        forall|k: u8| k >= cc ==> !#[trigger] start.contains_key(k),
        forall|k: u8| #[trigger] start.contains_key(k) ==> start[k] == m[k],
    ensures
        bound(start, lines(lines_from(m, cc))) == named(m),
    decreases 256 - cc,
{
    if cc == 256 {
        assert(lines_from(m, cc) =~= Seq::<char>::empty());
        assert(start =~= named(m));
    } else {
        let key = cc as u8;
        if m.contains_key(key) {
            let line = binding_line(key, m[key]);
            let more = lines_from(m, cc + 1);
            lemma_line_states_binding(key, m[key]);
            lemma_lines_of_binding(key, m[key], more);
            let ls = lines(line + more);
            assert(ls[0] == line.drop_last());
            assert(ls.drop_first() =~= lines(more));
            if m[key] < CONTROLS {
                lemma_round_trip_from(m, start.insert(key, m[key]), cc + 1);
            } else {
                lemma_round_trip_from(m, start, cc + 1);
            }
        } else {
            lemma_round_trip_from(m, start, cc + 1);
        }
    }
}

/// Bindings that were saved are loaded back as far as they name controls; where all of them do,
/// unchanged.
pub proof fn law_save_load_round_trip(m: Map<u8, usize>)
    ensures
        bindings_in(text_of(m)) == named(m),
        bindings_valid(m) ==> bindings_in(text_of(m)) == m,
{
    lemma_round_trip_from(m, Map::empty(), 0);
    if bindings_valid(m) {
        assert(named(m) =~= m);
    }
}

/// Of several lines that bind one controller, the last one counts, and the other controllers are
/// as the earlier lines left them.
pub proof fn law_last_line_wins(m: Map<u8, usize>, ls: Seq<Seq<char>>, line: Seq<char>)
    ensures
        bound(m, ls.push(line)) == match binding_in(line) {
            Some((cc, id)) => bound(m, ls).insert(cc, id),
            None => bound(m, ls),
        },
    decreases ls.len(),
{
    if ls.len() == 0 {
        assert(ls.push(line).drop_first() =~= Seq::<Seq<char>>::empty());
        reveal_with_fuel(bound, 2);
    } else {
        let next = match binding_in(ls[0]) {
            Some((cc, id)) => m.insert(cc, id),
            None => m,
        };
        assert(ls.push(line).drop_first() =~= ls.drop_first().push(line));
        law_last_line_wins(next, ls.drop_first(), line);
    }
}

/// No character of `s` is `c`.
pub open spec fn lacks(s: Seq<char>, c: char) -> bool {
    forall|i: int| 0 <= i < s.len() ==> #[trigger] s[i] != c
}

/// A line ends with a line feed, with or without a carriage return before it, and the next one begins
/// behind it; the last line may lack its end, and there is none in an empty text.
pub proof fn law_lines_end(line: Seq<char>, rest: Seq<char>)
    requires
        lacks(line, '\n'),
    ensures
        !(line.len() > 0 && line.last() == '\r') ==> lines(line + seq!['\n'] + rest) == seq![line]
            + lines(rest),
        lines(line + seq!['\r', '\n'] + rest) == seq![line] + lines(rest),
        line.len() > 0 ==> lines(line) == seq![line],
        lines(Seq::<char>::empty()) == Seq::<Seq<char>>::empty(),
{
    let n = line.len() as int;
    let a = line + seq!['\n'] + rest;
    assert forall|i: int| 0 <= i < n implies #[trigger] a[i] != '\n' by {
        assert(a[i] == line[i]);
    }
    assert(a[n] == '\n');
    lemma_cut_at(a, '\n', n);
    assert(a.take(n) =~= line);
    assert(a.skip(n + 1) =~= rest);
    let b = line + seq!['\r', '\n'] + rest;
    assert forall|i: int| 0 <= i < n + 1 implies #[trigger] b[i] != '\n' by {
        if i < n {
            assert(b[i] == line[i]);
        }
    }
    assert(b[n + 1] == '\n');
    lemma_cut_at(b, '\n', n + 1);
    assert(b.take(n + 1).drop_last() =~= line);
    assert(b.take(n + 1).last() == '\r');
    assert(b.skip(n + 2) =~= rest);
    if n > 0 {
        lemma_cut_at(line, '\n', n);
    }
}

/// A line states a binding by the numbers before and behind its first comma; what follows a second
/// comma does not matter, and a line without a comma states none.
pub proof fn law_line_states_numbers(a: Seq<char>, b: Seq<char>, tail: Seq<char>)
    requires
        lacks(a, ','),
        lacks(b, ','),
    ensures
        binding_in(a + seq![','] + b + seq![','] + tail) == binding_in(a + seq![','] + b),
        binding_in(a + seq![','] + b) is Some <==> number_in(a, 255) is Some && number_in(
            b,
            usize::MAX as nat,
        ) is Some && number_in(b, usize::MAX as nat)->0 < 30,
        binding_in(a + seq![','] + b) matches Some((cc, id)) ==> number_in(a, 255) == Some(cc as nat)
            && number_in(b, usize::MAX as nat) == Some(id as nat),
        binding_in(a) is None,
{
    let n = a.len() as int;
    let x = a + seq![','] + b;
    let y = x + seq![','] + tail;
    assert forall|i: int| 0 <= i < n implies #[trigger] x[i] != ',' by {
        assert(x[i] == a[i]);
    }
    assert forall|i: int| 0 <= i < n implies #[trigger] y[i] != ',' by {
        assert(y[i] == a[i]);
    }
    assert(x[n] == ',' && y[n] == ',');
    lemma_cut_at(x, ',', n);
    lemma_cut_at(y, ',', n);
    lemma_cut_at(a, ',', n);
    assert(x.take(n) =~= a);
    assert(y.take(n) =~= a);
    let (p, q) = (x.skip(n + 1), y.skip(n + 1));
    let m = b.len() as int;
    assert(p =~= b);
    assert forall|i: int| 0 <= i < m implies #[trigger] q[i] != ',' by {
        assert(q[i] == b[i]);
    }
    assert(q[m] == ',');
    lemma_cut_at(p, ',', m);
    lemma_cut_at(q, ',', m);
    assert(p.take(m) =~= b);
    assert(q.take(m) =~= b);
    if number_in(a, 255) is Some {
        assert(number_in(a, 255)->0 <= 255);
    }
}

/// The line of a controller and a control states that they belong together, whatever the numbers, as
/// far as there are such.
pub proof fn law_binding_is_read(cc: nat, id: nat)
    ensures
        binding_in(decimal(cc) + seq![','] + decimal(id)) == if cc <= 255 && id < 30 {
            Some((cc as u8, id as usize))
        } else {
            None
        },
{
    let (a, b) = (decimal(cc), decimal(id));
    crate::text::lemma_decimal_digits(cc);
    crate::text::lemma_decimal_digits(id);
    assert forall|i: int| 0 <= i < a.len() implies #[trigger] a[i] != ',' by {
        assert(is_digit(a[i]));
    }
    assert forall|i: int| 0 <= i < b.len() implies #[trigger] b[i] != ',' by {
        assert(is_digit(b[i]));
    }
    crate::text::law_numbers_are_read(cc, 255);
    crate::text::law_numbers_are_read(id, usize::MAX as nat);
    law_line_states_numbers(a, b, Seq::empty());
}

proof fn lemma_bound_adds(m: Map<u8, usize>, a: Seq<Seq<char>>, b: Seq<Seq<char>>)
    ensures
        bound(m, a + b) == bound(bound(m, a), b),
    decreases a.len(),
{
    if a.len() == 0 {
        assert(a + b =~= b);
    } else {
        let next = match binding_in(a[0]) {
            Some((cc, id)) => m.insert(cc, id),
            None => m,
        };
        assert((a + b).drop_first() =~= a.drop_first() + b);
        lemma_bound_adds(next, a.drop_first(), b);
    }
}

proof fn lemma_bound_over(m: Map<u8, usize>, ls: Seq<Seq<char>>)
    ensures
        bound(m, ls) == m.union_prefer_right(bound(Map::empty(), ls)),
    decreases ls.len(),
{
    let none = Map::<u8, usize>::empty();
    if ls.len() == 0 {
        assert(m =~= m.union_prefer_right(none));
    } else {
        let rest = ls.drop_first();
        match binding_in(ls[0]) {
            Some((cc, id)) => {
                lemma_bound_over(m.insert(cc, id), rest);
                lemma_bound_over(none.insert(cc, id), rest);
                let b = bound(none, rest);
                assert(m.insert(cc, id).union_prefer_right(b) =~= m.union_prefer_right(
                    none.insert(cc, id).union_prefer_right(b),
                ));
            },
            None => {
                lemma_bound_over(m, rest);
            },
        }
    }
}

/// Lines that are added to a text override what the text states, and leave the rest as it is.
pub proof fn law_added_lines_override(first: Seq<char>, second: Seq<char>)
    ensures
        bindings_in(first + seq!['\n'] + second) == bindings_in(
            first + seq!['\n'],
        ).union_prefer_right(bindings_in(second)),
{
    lemma_lines_join(first, second);
    let (a, b) = (lines(first + seq!['\n']), lines(second));
    lemma_bound_adds(Map::empty(), a, b);
    lemma_bound_over(bound(Map::empty(), a), b);
}

proof fn lemma_lines_join(first: Seq<char>, second: Seq<char>)
    ensures
        lines(first + seq!['\n'] + second) == lines(first + seq!['\n']) + lines(second),
    decreases first.len(),
{
    let one = first + seq!['\n'];
    let both = one + second;
    lemma_cut(one, '\n');
    let e = cut(one, '\n');
    assert(one[first.len() as int] == '\n');
    assert(e <= first.len());
    assert forall|i: int| 0 <= i < e implies #[trigger] both[i] != '\n' by {
        assert(both[i] == one[i]);
    }
    assert(both[e] == one[e]);
    lemma_cut_at(both, '\n', e);
    assert(both.take(e) =~= one.take(e));
    if e < first.len() {
        let rest = first.skip(e + 1);
        assert(one.skip(e + 1) =~= rest + seq!['\n']);
        assert(both.skip(e + 1) =~= rest + seq!['\n'] + second);
        lemma_lines_join(rest, second);
        assert(lines(both) =~= lines(one) + lines(second));
    } else {
        assert(one.skip(e + 1) =~= Seq::<char>::empty());
        assert(both.skip(e + 1) =~= second);
        assert(lines(Seq::<char>::empty()) =~= Seq::<Seq<char>>::empty());
        assert(lines(both) =~= lines(one) + lines(second));
    }
}

/// Where one more controller is bound, one more line is written: the numbers of the controller and of
/// the control with a comma between them. It begins a line, and all that is written else is as before.
pub proof fn law_binding_adds_a_line(m: Map<u8, usize>, cc: u8, id: usize)
    requires
        !m.contains_key(cc),
    ensures
        text_of(Map::<u8, usize>::empty()) == Seq::<char>::empty(),
        exists|a: Seq<char>, b: Seq<char>|
            (a.len() == 0 || a.last() == '\n') && text_of(m) == #[trigger] (a + b) && text_of(
                m.insert(cc, id),
            ) == a + (decimal(cc as nat) + seq![','] + decimal(id as nat) + seq!['\n']) + b,
{
    lemma_nothing_written(0);
    let (a, b) = lemma_line_added(m, cc, id, 0);
    let line = decimal(cc as nat) + seq![','] + decimal(id as nat) + seq!['\n'];
    assert(binding_line(cc, id) =~= line);
    assert(text_of(m) == a + b);
}

proof fn lemma_nothing_written(cc: int)
    requires
        0 <= cc <= 256,
    ensures
        lines_from(Map::<u8, usize>::empty(), cc) == Seq::<char>::empty(),
    decreases 256 - cc,
{
    if cc < 256 {
        lemma_nothing_written(cc + 1);
    }
}

proof fn lemma_others_written_alike(m: Map<u8, usize>, cc: u8, id: usize, k: int)
    requires
        cc < k <= 256,
    ensures
        lines_from(m.insert(cc, id), k) == lines_from(m, k),
    decreases 256 - k,
{
    if k < 256 {
        lemma_others_written_alike(m, cc, id, k + 1);
    }
}

proof fn lemma_line_added(m: Map<u8, usize>, cc: u8, id: usize, k: int) -> (r: (Seq<char>, Seq<char>))
    requires
        !m.contains_key(cc),
        0 <= k <= cc,
    ensures
        r.0.len() == 0 || r.0.last() == '\n',
        lines_from(m, k) == r.0 + r.1,
        lines_from(m.insert(cc, id), k) == r.0 + binding_line(cc, id) + r.1,
    decreases 256 - k,
{
    let more = m.insert(cc, id);
    if k == cc {
        lemma_others_written_alike(m, cc, id, k + 1);
        let (a, b) = (Seq::<char>::empty(), lines_from(m, k + 1));
        assert(lines_from(m, k) =~= a + b);
        assert(lines_from(more, k) =~= a + binding_line(cc, id) + b);
        (a, b)
    } else {
        let (a, b) = lemma_line_added(m, cc, id, k + 1);
        let key = k as u8;
        if m.contains_key(key) {
            let first = binding_line(key, m[key]);
            assert(lines_from(m, k) =~= (first + a) + b);
            assert(lines_from(more, k) =~= (first + a) + binding_line(cc, id) + b);
            assert((first + a).last() == '\n');
            (first + a, b)
        } else {
            (a, b)
        }
    }
}

} // verus!
