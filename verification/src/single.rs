//! Comparison of single-precision numbers by their bit patterns.
//!
//! A level, a sample or any other single-precision number is held as the 32 bits of its binary
//! form. Numbers in that form compare like signed integers once the sign bit is taken as a sign;
//! the patterns beyond the infinities stand for no number and compare with nothing.

use vstd::prelude::*;

verus! {

/// The sign bit.
pub const SIGN: u32 = 0x8000_0000;

/// The bits of positive infinity.
pub const INFINITY: u32 = 0x7F80_0000;

/// The bits of 0.
pub const ZERO: u32 = 0;

/// The bits of 1.
pub const ONE: u32 = 0x3F80_0000;

/// The bits of the largest finite number.
pub const LARGEST: u32 = 0x7F7F_FFFF;

/// The bits of the smallest finite number.
pub const SMALLEST: u32 = 0xFF7F_FFFF;

/// The place of a number among all numbers; both zeros have the same one.
pub open spec fn place(b: u32) -> int {
    if b < SIGN {
        b as int
    } else {
        SIGN - b
    }
}

/// `b` stands for a number, maybe an infinite one.
pub open spec fn is_number(b: u32) -> bool {
    -INFINITY <= place(b) <= INFINITY
}

/// `a` is less than `b`.
pub open spec fn lower(a: u32, b: u32) -> bool {
    is_number(a) && is_number(b) && place(a) < place(b)
}

/// Whether `a` is less than `b`.
pub fn less(a: u32, b: u32) -> (r: bool)
    ensures
        r == lower(a, b),
{
    let pa: i64 = if a < SIGN {
        a as i64
    } else {
        SIGN as i64 - a as i64
    };
    let pb: i64 = if b < SIGN {
        b as i64
    } else {
        SIGN as i64 - b as i64
    };
    let top = INFINITY as i64;
    -top <= pa && pa <= top && -top <= pb && pb <= top && pa < pb
}

/// `v` moved into the range from 0 to 1; what is no number stays as it is.
pub open spec fn clamped(v: u32) -> u32 {
    if lower(v, ZERO) {
        ZERO
    } else if lower(ONE, v) {
        ONE
    } else {
        v
    }
}

/// `v` is neither below 0 nor above 1: a number from 0 to 1, or no number.
pub open spec fn in_unit(v: u32) -> bool {
    !lower(v, ZERO) && !lower(ONE, v)
}

/// Moves `v` into the range from 0 to 1.
pub fn clamp_unit(v: u32) -> (r: u32)
    ensures
        r == clamped(v),
        in_unit(r),
{
    if less(v, ZERO) {
        ZERO
    } else if less(ONE, v) {
        ONE
    } else {
        v
    }
}

/// The least number met when going through `s` from `start` on.
pub open spec fn least(s: Seq<u32>, start: u32) -> u32
    decreases s.len(),
{
    if s.len() == 0 {
        start
    } else {
        let so_far = least(s.drop_last(), start);
        if lower(s.last(), so_far) {
            s.last()
        } else {
            so_far
        }
    }
}

/// The greatest number met when going through `s` from `start` on.
pub open spec fn greatest(s: Seq<u32>, start: u32) -> u32
    decreases s.len(),
{
    if s.len() == 0 {
        start
    } else {
        let so_far = greatest(s.drop_last(), start);
        if lower(so_far, s.last()) {
            s.last()
        } else {
            so_far
        }
    }
}

/// The lower of two numbers, the first where neither is.
pub open spec fn lower_of(a: u32, b: u32) -> u32 {
    if lower(b, a) {
        b
    } else {
        a
    }
}

/// The greater of two numbers, the first where neither is.
pub open spec fn greater_of(a: u32, b: u32) -> u32 {
    if lower(a, b) {
        b
    } else {
        a
    }
}

/// The greatest number met from position `from` up to `to`, starting from `start`.
pub fn peak(s: &Vec<u32>, from: usize, to: usize, start: u32) -> (r: u32)
    requires
        from <= to <= s@.len(),
    ensures
        r == greatest(s@.subrange(from as int, to as int), start),
{
    let ghost part = s@.subrange(from as int, to as int);
    let mut best = start;
    let mut i: usize = from;
    assert(part.take(0) =~= Seq::<u32>::empty());
    while i < to
        invariant
            from <= i <= to <= s@.len(),
            part == s@.subrange(from as int, to as int),
            best == greatest(part.take(i - from), start),
        decreases to - i,
    {
        let v = s[i];
        assert(part.take(i - from + 1).drop_last() =~= part.take(i - from));
        assert(part.take(i - from + 1).last() == v);
        if less(best, v) {
            best = v;
        }
        i = i + 1;
    }
    assert(part.take(to - from) =~= part);
    best
}

/// The least number met from position `from` up to `to`, starting from `start`.
pub fn trough(s: &Vec<u32>, from: usize, to: usize, start: u32) -> (r: u32)
    requires
        from <= to <= s@.len(),
    ensures
        r == least(s@.subrange(from as int, to as int), start),
{
    let ghost part = s@.subrange(from as int, to as int);
    let mut best = start;
    let mut i: usize = from;
    assert(part.take(0) =~= Seq::<u32>::empty());
    while i < to
        invariant
            from <= i <= to <= s@.len(),
            part == s@.subrange(from as int, to as int),
            best == least(part.take(i - from), start),
        decreases to - i,
    {
        let v = s[i];
        assert(part.take(i - from + 1).drop_last() =~= part.take(i - from));
        assert(part.take(i - from + 1).last() == v);
        if less(v, best) {
            best = v;
        }
        i = i + 1;
    }
    assert(part.take(to - from) =~= part);
    best
}

// ---------- laws ----------

/// Of two numbers one is less than the other unless they are equal, and a chain of comparisons
/// holds from end to end.
pub proof fn law_numbers_are_ordered(a: u32, b: u32, c: u32)
    requires
        is_number(a),
        is_number(b),
        is_number(c),
    ensures
        !lower(a, a),
        lower(a, b) ==> !lower(b, a),
        !lower(a, b) && !lower(b, a) ==> place(a) == place(b),
        lower(a, b) && lower(b, c) ==> lower(a, c),
{
}

/// Clamping gives a value in range, leaves a value in range alone, and keeps the order.
pub proof fn law_clamp(a: u32, b: u32)
    ensures
        in_unit(clamped(a)),
        in_unit(a) ==> clamped(a) == a,
        lower(clamped(a), clamped(b)) ==> lower(a, b),
{
}

/// Every number in `s` lies between the least and the greatest one met.
pub proof fn law_extremes_enclose(s: Seq<u32>, low: u32, high: u32, i: int)
    requires
        is_number(low),
        is_number(high),
        0 <= i < s.len(),
    ensures
        is_number(least(s, low)),
        is_number(greatest(s, high)),
        !lower(s[i], least(s, low)),
        !lower(greatest(s, high), s[i]),
    decreases s.len(),
{
    lemma_extremes_are_numbers(s.drop_last(), low, high);
    if i < s.len() - 1 {
        law_extremes_enclose(s.drop_last(), low, high, i);
        assert(s.drop_last()[i] == s[i]);
    }
}

/// The extremes of a whole are those of its two parts.
pub proof fn law_extremes_of_parts(s: Seq<u32>, t: Seq<u32>, low: u32, high: u32)
    requires
        is_number(low),
        is_number(high),
    ensures
        least(s + t, low) == lower_of(least(s, low), least(t, low)),
        greatest(s + t, high) == greater_of(greatest(s, high), greatest(t, high)),
    decreases t.len(),
{
    lemma_extremes_are_numbers(s, low, high);
    if t.len() == 0 {
        assert(s + t =~= s);
        lemma_extremes_within(s, low, high);
    } else {
        assert((s + t).drop_last() =~= s + t.drop_last());
        law_extremes_of_parts(s, t.drop_last(), low, high);
        lemma_extremes_are_numbers(t.drop_last(), low, high);
    }
}

proof fn lemma_extremes_within(s: Seq<u32>, low: u32, high: u32)
    requires
        is_number(low),
        is_number(high),
    ensures
        !lower(low, least(s, low)),
        !lower(greatest(s, high), high),
    decreases s.len(),
{
    if s.len() != 0 {
        lemma_extremes_within(s.drop_last(), low, high);
        lemma_extremes_are_numbers(s.drop_last(), low, high);
    }
}

proof fn lemma_extremes_are_numbers(s: Seq<u32>, low: u32, high: u32)
    requires
        is_number(low),
        is_number(high),
    ensures
        is_number(least(s, low)),
        is_number(greatest(s, high)),
    decreases s.len(),
{
    if s.len() != 0 {
        lemma_extremes_are_numbers(s.drop_last(), low, high);
    }
}

/// The least and the greatest number met are among those gone through, or the starting point.
pub proof fn law_extremes_are_met(s: Seq<u32>, start: u32)
    ensures
        least(s, start) == start || s.contains(least(s, start)),
        greatest(s, start) == start || s.contains(greatest(s, start)),
    decreases s.len(),
{
    if s.len() != 0 {
        let t = s.drop_last();
        law_extremes_are_met(t, start);
        assert(s.contains(s.last()));
        if t.contains(least(t, start)) {
            let i = choose|i: int| 0 <= i < t.len() && t[i] == least(t, start);
            assert(s[i] == least(t, start));
        }
        if t.contains(greatest(t, start)) {
            let i = choose|i: int| 0 <= i < t.len() && t[i] == greatest(t, start);
            assert(s[i] == greatest(t, start));
        }
    }
}

/// Clamping moves what is below 0 to 0 and what is above 1 to 1, infinite numbers too, and nothing
/// else.
pub proof fn law_clamp_moves_to_the_ends(v: u32)
    ensures
        SIGN < v <= SIGN + INFINITY ==> clamped(v) == ZERO,
        ONE <= v <= INFINITY ==> clamped(v) == ONE,
        v <= ONE || v == SIGN ==> clamped(v) == v,
        v % SIGN > INFINITY ==> clamped(v) == v,
        is_number(v) <==> v % SIGN <= INFINITY,
{
}

} // verus!
