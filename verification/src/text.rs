//! Building blocks for the text that is shown and stored: characters, decimal numbers, columns.

use vstd::prelude::*;
use vstd::string::StringExecFns;

use crate::arith::{
    law_share_is_near, lemma_product_bound, lemma_product_ends, lemma_product_keeps_order, lemma_round_keeps_order,
    lemma_ratio_times, lemma_round_zero, lemma_whole_exact, one, product, ratio, round, round_of, times,
    units, whole, BINADE,
};
use crate::single::{clamp_unit, clamped, is_number, INFINITY, ONE, SIGN, ZERO};

verus! {

/// `String::push` of std appends one character at the end.
pub assume_specification[ String::push ](s: &mut String, c: char)
    ensures
        final(s)@ == old(s)@.push(c),
;

/// The characters of a string slice, in order.
pub fn chars_of(s: &str) -> (r: Vec<char>)
    ensures
        r@ == s@,
{
    let mut out: Vec<char> = Vec::new();
    for c in it: s.chars()
        invariant
            out@ =~= it.seq().take(it.index()),
            it.seq() == s@,
    {
        out.push(c);
    }
    out
}

// ---------- decimal numbers ----------

/// The character of a decimal digit.
pub open spec fn digit_char(d: int) -> char {
    (d + 48) as char
}

/// `c` is a decimal digit.
pub open spec fn is_digit(c: char) -> bool {
    '0' <= c && c <= '9'
}

/// `n` in decimal, without leading zeros.
pub open spec fn decimal(n: nat) -> Seq<char>
    decreases n,
{
    if n < 10 {
        seq![digit_char(n as int)]
    } else {
        decimal(n / 10).push(digit_char((n % 10) as int))
    }
}

/// Appends `n` in decimal.
pub fn push_decimal(s: &mut String, n: usize)
    ensures
        final(s)@ == old(s)@ + decimal(n as nat),
    decreases n,
{
    let ghost start = s@;
    if n >= 10 {
        push_decimal(s, n / 10);
    }
    let d: u8 = (n % 10) as u8;
    s.push((48u8 + d) as char);
    assert(s@ =~= start + decimal(n as nat));
}

/// The value of a sequence of decimal digits, the highest first.
pub open spec fn digits_value(s: Seq<char>) -> nat
    decreases s.len(),
{
    if s.len() == 0 {
        0
    } else {
        10 * digits_value(s.drop_last()) + (s.last() as int - 48) as nat
    }
}

/// Every character is a decimal digit.
pub open spec fn all_digits(s: Seq<char>) -> bool {
    forall|i: int| 0 <= i < s.len() ==> is_digit(#[trigger] s[i])
}

/// `s` without one leading plus sign.
pub open spec fn unsigned_part(s: Seq<char>) -> Seq<char> {
    if s.len() > 0 && s[0] == '+' {
        s.drop_first()
    } else {
        s
    }
}

/// The number that `s` writes: an optional plus sign and at least one decimal digit, leading
/// zeros allowed, not above `max`.
pub open spec fn number_in(s: Seq<char>, max: nat) -> Option<nat> {
    let digits = unsigned_part(s);
    if digits.len() > 0 && all_digits(digits) && digits_value(digits) <= max {
        Some(digits_value(digits))
    } else {
        None
    }
}

/// More digits do not make a number smaller.
proof fn lemma_digits_value_grows(s: Seq<char>, k: int)
    requires
        0 <= k <= s.len(),
        all_digits(s),
    ensures
        digits_value(s.take(k)) <= digits_value(s),
    decreases s.len() - k,
{
    if k == s.len() {
        assert(s.take(k) =~= s);
    } else {
        assert(s.take(k + 1).drop_last() =~= s.take(k));
        assert(is_digit(s[k]));
        lemma_digits_value_grows(s, k + 1);
    }
}

/// Reads the number that the characters from `from` up to `to` write, see `number_in`.
pub fn read_number(s: &Vec<char>, from: usize, to: usize, max: usize) -> (r: Option<usize>)
    requires
        from <= to <= s@.len(),
    ensures
        match r {
            Some(n) => number_in(s@.subrange(from as int, to as int), max as nat) == Some(n as nat),
            None => number_in(s@.subrange(from as int, to as int), max as nat) is None,
        },
{
    let ghost whole = s@.subrange(from as int, to as int);
    let ghost digits = unsigned_part(whole);
    let mut i: usize = from;
    if i < to && s[i] == '+' {
        i = i + 1;
    }
    let start = i;
    assert(digits =~= s@.subrange(start as int, to as int));
    if start == to {
        return None;
    }
    let mut acc: usize = 0;
    assert(digits.take(0) =~= Seq::<char>::empty());
    while i < to
        invariant
            start <= i,
            i <= to,
            to <= s@.len(),
            digits == s@.subrange(start as int, to as int),
            digits == unsigned_part(whole),
            whole == s@.subrange(from as int, to as int),
            acc <= max,
            acc == digits_value(digits.take(i - start)),
            forall|k: int| 0 <= k < i - start ==> is_digit(#[trigger] digits[k]),
        decreases to - i,
    {
        let c = s[i];
        let ghost k = i - start;
        assert(c == digits[k]);
        if !('0' <= c && c <= '9') {
            return None;
        }
        let d: usize = (c as u32 - 48) as usize;
        assert(digits.take(k + 1).drop_last() =~= digits.take(k));
        if d > max || acc > (max - d) / 10 {
            proof {
                if all_digits(digits) {
                    lemma_digits_value_grows(digits, k + 1);
                }
            }
            return None;
        }
        acc = acc * 10 + d;
        i = i + 1;
    }
    assert(digits.take(to - start) =~= digits);
    Some(acc)
}

/// A number in decimal is a sequence of digits worth that number.
pub proof fn lemma_decimal_digits(n: nat)
    ensures
        decimal(n).len() > 0,
        all_digits(decimal(n)),
        digits_value(decimal(n)) == n,
    decreases n,
{
    if n < 10 {
        assert(decimal(n).drop_last() =~= Seq::<char>::empty());
        assert(digits_value(Seq::<char>::empty()) == 0);
    } else {
        lemma_decimal_digits(n / 10);
        assert(decimal(n).drop_last() =~= decimal(n / 10));
    }
}

/// Reading what was written in decimal gives the number back.
pub proof fn lemma_decimal_round_trip(n: nat, max: nat)
    requires
        n <= max,
    ensures
        number_in(decimal(n), max) == Some(n),
{
    lemma_decimal_digits(n);
    assert(is_digit(decimal(n)[0]));
}

// ---------- columns ----------

/// `n` times the character `c`.
pub open spec fn repeated(c: char, n: int) -> Seq<char> {
    Seq::new(if n > 0 { n as nat } else { 0 }, |i: int| c)
}

/// Appends `n` times the character `c`.
pub fn push_repeated(s: &mut String, c: char, n: usize)
    ensures
        final(s)@ == old(s)@ + repeated(c, n as int),
{
    let ghost start = s@;
    let mut i: usize = 0;
    assert(s@ =~= start + repeated(c, 0));
    while i < n
        invariant
            i <= n,
            s@ == start + repeated(c, i as int),
        decreases n - i,
    {
        s.push(c);
        i = i + 1;
        assert(s@ =~= start + repeated(c, i as int));
    }
}

/// `s` at the left of a column of `width` characters; a longer text sticks out.
pub open spec fn left_aligned(s: Seq<char>, width: int) -> Seq<char> {
    s + repeated(' ', width - s.len())
}

/// `s` in the middle of a column of `width` characters, further left where it cannot be exact; a
/// longer text sticks out.
pub open spec fn centered(s: Seq<char>, width: int) -> Seq<char> {
    let free = if width > s.len() {
        width - s.len()
    } else {
        0
    };
    repeated(' ', free / 2) + s + repeated(' ', free - free / 2)
}

/// Puts a text at the left of a column.
pub fn align_left(s: &str, width: usize) -> (r: String)
    ensures
        r@ == left_aligned(s@, width as int),
{
    let n = chars_of(s).len();
    let mut out = s.to_string();
    if width > n {
        push_repeated(&mut out, ' ', width - n);
    }
    assert(out@ =~= left_aligned(s@, width as int));
    out
}

/// Puts a text in the middle of a column.
pub fn center(s: &str, width: usize) -> (r: String)
    ensures
        r@ == centered(s@, width as int),
{
    let n = chars_of(s).len();
    let free = if width > n {
        width - n
    } else {
        0
    };
    let mut out = String::new();
    push_repeated(&mut out, ' ', free / 2);
    out.append(s);
    push_repeated(&mut out, ' ', free - free / 2);
    assert(out@ =~= centered(s@, width as int));
    out
}

/// How many cells of a bar of `width` cells a level fills, rounded; none if it is no number.
pub open spec fn filled_cells(level: u32, width: int) -> int {
    let v = clamped(level);
    if v <= ONE {
        round_of(product(v, whole(width as nat)))
    } else {
        0
    }
}

/// A bar of `width` cells, the first `filled` of them dark.
pub open spec fn bar(filled: int, width: int) -> Seq<char> {
    repeated('▓', filled) + repeated('░', width - filled)
}

/// The bar of a level.
pub open spec fn level_bar(level: u32, width: int) -> Seq<char> {
    bar(filled_cells(level, width), width)
}

/// Draws the bar of a level.
pub fn cell_bar(level: u32, width: usize) -> (r: String)
    ensures
        r@ == level_bar(level, width as int),
{
    let v = clamp_unit(level);
    let filled = if v <= ONE {
        round(times(v, width as u64))
    } else {
        0
    };
    let mut s = String::new();
    push_repeated(&mut s, '▓', filled);
    if filled < width {
        push_repeated(&mut s, '░', width - filled);
    }
    assert(s@ =~= level_bar(level, width as int));
    s
}

/// A text that fits its column fills it exactly.
pub proof fn law_columns_line_up(s: Seq<char>, width: int)
    requires
        s.len() <= width,
    ensures
        left_aligned(s, width).len() == width,
        centered(s, width).len() == width,
{
}

/// A bar is as long as it is wide, whatever the level; it is empty at 0 and full at 1, and a higher
/// level never fills fewer cells. A width from 2 to the power of 24 on need not be a
/// single-precision number, and its bar may differ from it by the rounding of the width.
pub proof fn law_bars_line_up(a: u32, b: u32, width: int)
    requires
        0 <= width < 0x0100_0000,
        clamped(a) <= clamped(b),
    ensures
        0 <= filled_cells(a, width) <= width,
        level_bar(a, width).len() == width,
        filled_cells(ZERO, width) == 0,
        filled_cells(ONE, width) == width,
        clamped(b) <= ONE ==> filled_cells(a, width) <= filled_cells(b, width),
{
    let n = width as nat;
    vstd::arithmetic::power2::lemma2_to64();
    lemma_whole_exact(n);
    lemma_product_ends(n);
    lemma_round_zero();
    lemma_filled(a, width);
    if clamped(b) <= ONE {
        lemma_product_bound(clamped(b), n);
        lemma_product_keeps_order(clamped(a), clamped(b), n);
        lemma_round_keeps_order(product(clamped(a), whole(n)), product(clamped(b), whole(n)));
    }
}

proof fn lemma_filled(level: u32, width: int)
    requires
        0 <= width < 0x0100_0000,
    ensures
        0 <= filled_cells(level, width) <= width,
{
    let (n, v) = (width as nat, clamped(level));
    if v <= ONE {
        vstd::arithmetic::power2::lemma2_to64();
        lemma_product_bound(v, n);
        lemma_whole_exact(n);
        lemma_round_zero();
        lemma_round_keeps_order(0, product(v, whole(n)));
        lemma_round_keeps_order(product(v, whole(n)), whole(n));
    }
}

// ---------- laws ----------

/// A bar is dark up to where it is filled and light from there on, up to its width.
pub proof fn law_bar_is_dark_then_light(level: u32, width: int, i: int)
    requires
        0 <= width < 0x0100_0000,
        0 <= i < width,
    ensures
        level_bar(level, width)[i] == if i < filled_cells(level, width) {
            '▓'
        } else {
            '░'
        },
{
    lemma_filled(level, width);
}

/// A level of `i` parts in `width` fills `i` cells of a bar of that width.
pub proof fn law_parts_fill_cells(i: int, width: int)
    requires
        0 <= i <= width <= u16::MAX,
        0 < width,
    ensures
        filled_cells(ratio(i, width), width) == i,
{
    lemma_ratio_times(i as nat, width as nat);
}

/// A bar is filled to the nearest cell.
pub proof fn law_bar_is_near(level: u32, width: int)
    requires
        level <= ONE,
        0 < width < 0x0100_0000,
    ensures
        ({
            let d = filled_cells(level, width) * one() - width * units(level);
            let slack = (BINADE + width) * one();
            -slack <= 2 * d * BINADE <= slack
        }),
{
    law_share_is_near(level, width as nat);
}

/// A text at the left of its column begins it, and blanks follow.
pub proof fn law_left_aligned_text(s: Seq<char>, width: int, i: int)
    ensures
        left_aligned(s, width).take(s.len() as int) == s,
        s.len() <= i < left_aligned(s, width).len() ==> left_aligned(s, width)[i] == ' ',
        s.len() >= width ==> left_aligned(s, width) == s,
{
    assert(left_aligned(s, width).take(s.len() as int) =~= s);
    if s.len() >= width {
        assert(left_aligned(s, width) =~= s);
    }
}

/// A text in the middle of its column has blanks on both sides, on the right as many as on the left or
/// one more.
pub proof fn law_centered_text(s: Seq<char>, width: int)
    requires
        s.len() <= width,
    ensures
        exists|a: nat, b: nat|
            a <= b <= a + 1 && a + s.len() + b == width && centered(s, width) == #[trigger] repeated(
                ' ',
                a as int,
            ) + s + #[trigger] repeated(' ', b as int),
{
    let free = width - s.len();
    let (a, b) = ((free / 2) as nat, (free - free / 2) as nat);
    assert(centered(s, width) == repeated(' ', a as int) + s + repeated(' ', b as int));
}

/// A number has no leading zero, and every number is written differently.
pub proof fn law_decimal(m: nat, n: nat)
    ensures
        n > 0 ==> decimal(n)[0] != '0',
        decimal(0) == seq!['0'],
        decimal(m) == decimal(n) ==> m == n,
    decreases n,
{
    lemma_decimal_digits(m);
    lemma_decimal_digits(n);
    if n >= 10 {
        law_decimal(0, n / 10);
        lemma_decimal_digits(n / 10);
        assert(decimal(n)[0] == decimal(n / 10)[0]);
    }
    assert(decimal(0) =~= seq!['0']);
}

/// A number may be read with a plus sign in front of it or with zeros, one as good as the other.
pub proof fn law_numbers_may_be_padded(s: Seq<char>, max: nat)
    requires
        s.len() > 0,
        s[0] != '+',
    ensures
        number_in(seq!['+'] + s, max) == number_in(s, max),
        number_in(seq!['0'] + s, max) == number_in(s, max),
{
    assert((seq!['+'] + s).drop_first() =~= s);
    let z = seq!['0'] + s;
    lemma_leading_zero(s);
    assert(all_digits(z) <==> all_digits(s)) by {
        assert(forall|i: int| 0 <= i < s.len() ==> z[i + 1] == #[trigger] s[i]);
        if all_digits(s) {
            assert forall|i: int| 0 <= i < z.len() implies is_digit(#[trigger] z[i]) by {
                if i > 0 {
                    assert(is_digit(s[i - 1]));
                }
            }
        }
        if all_digits(z) {
            assert forall|i: int| 0 <= i < s.len() implies is_digit(#[trigger] s[i]) by {
                assert(is_digit(z[i + 1]));
            }
        }
    }
}

proof fn lemma_leading_zero(s: Seq<char>)
    ensures
        digits_value(seq!['0'] + s) == digits_value(s),
    decreases s.len(),
{
    let z = seq!['0'] + s;
    if s.len() == 0 {
        assert(z.drop_last() =~= Seq::<char>::empty());
        reveal_with_fuel(digits_value, 2);
    } else {
        assert(z.drop_last() =~= seq!['0'] + s.drop_last());
        lemma_leading_zero(s.drop_last());
    }
}

/// What holds anything but digits behind an optional plus sign is no number, and neither is nothing.
pub proof fn law_only_digits_are_numbers(s: Seq<char>, max: nat, i: int)
    requires
        0 <= i < s.len(),
        !is_digit(s[i]),
        i > 0 || s[i] != '+',
    ensures
        number_in(s, max) is None,
        number_in(Seq::<char>::empty(), max) is None,
        number_in(seq!['+'], max) is None,
{
    let d = unsigned_part(s);
    if s[0] == '+' {
        assert(d[i - 1] == s[i]);
    } else {
        assert(d[i] == s[i]);
    }
    assert(seq!['+'].drop_first() =~= Seq::<char>::empty());
}

/// A number is read as it is written in decimal as long as it is in range, and not beyond.
pub proof fn law_numbers_are_read(n: nat, max: nat)
    ensures
        number_in(decimal(n), max) == if n <= max {
            Some(n)
        } else {
            None
        },
{
    lemma_decimal_digits(n);
    assert(is_digit(decimal(n)[0]));
}

/// The digits of a number follow one another, the highest first, each the character of its own value.
pub proof fn law_digits_in_order(n: nat, d: nat)
    requires
        d < 10,
    ensures
        decimal(d).len() == 1,
        decimal(d)[0] as int == '0' as int + d,
        n > 0 ==> decimal(10 * n + d) == decimal(n) + decimal(d),
{
    if n > 0 {
        assert((10 * n + d) / 10 == n);
        assert((10 * n + d) % 10 == d);
        assert(decimal(10 * n + d) =~= decimal(n) + decimal(d));
    }
}

/// A level at or below zero fills no cell, one at or above 1 fills all, and what is no number fills
/// none.
pub proof fn law_bars_beyond_the_range(v: u32, width: int)
    requires
        0 <= width < 0x0100_0000,
    ensures
        SIGN <= v <= SIGN + INFINITY ==> filled_cells(v, width) == 0,
        ONE <= v <= INFINITY ==> filled_cells(v, width) == width,
        !is_number(v) ==> filled_cells(v, width) == 0,
{
    law_bars_line_up(ZERO, ZERO, width);
    crate::single::law_clamp_moves_to_the_ends(v);
}

} // verus!
