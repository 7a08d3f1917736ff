//! Arithmetic on single-precision numbers by their bit patterns.
//!
//! Every result is the number nearest to the exact one; of two that are equally near, the one
//! whose last bit is zero.

use vstd::arithmetic::power2::pow2;
use vstd::prelude::*;

use crate::single::{lower, INFINITY, LARGEST, ONE, SIGN};

verus! {

broadcast use vstd::arithmetic::power2::lemma_pow2_pos;

/// Distance of two patterns whose exponents differ by one.
pub const BINADE: u32 = 0x0080_0000;

// ---------- values ----------

/// The size of a finite number, counted in least positive numbers; the sign does not matter.
pub open spec fn units(b: u32) -> nat {
    let a = b % SIGN;
    let (e, m) = (a / BINADE, a % BINADE);
    if e == 0 {
        m as nat
    } else {
        ((m + BINADE) * pow2((e - 1) as nat)) as nat
    }
}

/// The size of the number 1.
pub open spec fn one() -> nat {
    pow2(149)
}

/// How far the positive number `b` is from `t / den`, times `den`.
pub open spec fn off(t: nat, den: nat, b: u32) -> int {
    let d = units(b) * den - t;
    if d < 0 {
        -d
    } else {
        d
    }
}

/// `b` is the positive number nearest to the size `t / den`; of two that are equally near, the one
/// whose last bit is zero.
pub open spec fn is_nearest(t: nat, den: nat, b: u32) -> bool {
    &&& b < INFINITY
    &&& forall|c: u32|
        c < INFINITY && c != b ==> off(t, den, b) < #[trigger] off(t, den, c) || (off(t, den, b)
            == off(t, den, c) && b % 2 == 0)
}

/// The positive number nearest to the size `t / den`.
pub open spec fn nearest(t: nat, den: nat) -> u32 {
    choose|b: u32| is_nearest(t, den, b)
}

/// The distance from the positive number `b` to the next one.
pub(crate) closed spec fn gap(b: u32) -> nat {
    let e = b / BINADE;
    if e == 0 {
        1
    } else {
        pow2((e - 1) as nat)
    }
}

pub(crate) proof fn lemma_double(e: nat)
    ensures
        pow2(e + 1) == 2 * pow2(e),
        pow2(0) == 1,
{
    vstd::arithmetic::power2::lemma_pow2_unfold(e + 1);
    vstd::arithmetic::power2::lemma2_to64();
}

/// The number with exponent `e` and significand `m`.
pub(crate) proof fn lemma_units_of(e: nat, m: nat)
    requires
        1 <= e <= 254,
        BINADE <= m < 2 * BINADE,
    ensures
        e * BINADE + (m - BINADE) < INFINITY,
        units((e * BINADE + (m - BINADE)) as u32) == m * pow2((e - 1) as nat),
        gap((e * BINADE + (m - BINADE)) as u32) == pow2((e - 1) as nat),
{
    let b = (e * BINADE + (m - BINADE)) as u32;
    assert(b / BINADE == e);
    assert(b % BINADE == m - BINADE);
    assert(b % SIGN == b);
}

pub(crate) proof fn lemma_step(b: u32)
    requires
        b + 1 < INFINITY,
    ensures
        units((b + 1) as u32) == units(b) + gap(b),
{
    let c = (b + 1) as u32;
    let (e, m) = (b / BINADE, b % BINADE);
    assert(b % SIGN == b && c % SIGN == c);
    lemma_double(0);
    if m + 1 < BINADE {
        assert(c / BINADE == e && c % BINADE == m + 1);
        if e != 0 {
            let g = pow2((e - 1) as nat) as int;
            assert((m + 1 + BINADE) * g == (m + BINADE) * g + g) by (nonlinear_arith);
        }
    } else {
        assert(c / BINADE == e + 1 && c % BINADE == 0);
        if e != 0 {
            lemma_double((e - 1) as nat);
            let g = pow2((e - 1) as nat) as int;
            assert((0 + BINADE) * (2 * g) == (m + BINADE) * g + g) by (nonlinear_arith)
                requires
                    m + 1 == BINADE,
            ;
            assert(pow2(e as nat) == 2 * g);
            assert(units(c) == (0 + BINADE) * pow2(e as nat));
        } else {
            assert((0 + BINADE) * pow2(0) == BINADE) by (nonlinear_arith)
                requires
                    pow2(0) == 1,
            ;
            assert(units(c) == (0 + BINADE) * pow2(0));
        }
    }
}

/// Greater patterns stand for greater numbers.
pub(crate) proof fn lemma_increasing(b: u32, c: u32)
    requires
        b <= c < INFINITY,
    ensures
        units(b) <= units(c),
        b < c ==> units(b) < units(c),
    decreases c - b,
{
    if b < c {
        lemma_increasing(b, (c - 1) as u32);
        lemma_step((c - 1) as u32);
    }
}

proof fn lemma_increasing_times(b: u32, c: u32, den: nat)
    requires
        b <= c < INFINITY,
        den > 0,
    ensures
        units(b) * den <= units(c) * den,
        b < c ==> units(b) * den < units(c) * den,
{
    lemma_increasing(b, c);
    let (x, y) = (units(b), units(c));
    if b < c {
        assert(x * den < y * den) by (nonlinear_arith)
            requires
                x < y,
                den > 0,
        ;
    }
}

/// There is only one nearest number.
pub proof fn law_nearest_is_unique(t: nat, den: nat, b: u32)
    requires
        den > 0,
        is_nearest(t, den, b),
    ensures
        nearest(t, den) == b,
{
    let c = nearest(t, den);
    assert(is_nearest(t, den, c));
    if b != c {
        assert(off(t, den, b) == off(t, den, c));
        let (low, high) = if b < c {
            (b, c)
        } else {
            (c, b)
        };
        let mid = (low + 1) as u32;
        lemma_increasing_times(low, mid, den);
        lemma_increasing_times(mid, high, den);
        assert(off(t, den, mid) < off(t, den, low));
    }
}

/// A number is the nearest one to itself.
pub proof fn lemma_exact(t: nat, den: nat, b: u32)
    requires
        den > 0,
        b < INFINITY,
        units(b) * den == t,
    ensures
        is_nearest(t, den, b),
        nearest(t, den) == b,
{
    assert forall|c: u32| c < INFINITY && c != b implies off(t, den, b) < #[trigger] off(
        t,
        den,
        c,
    ) by {
        if c < b {
            lemma_increasing_times(c, b, den);
        } else {
            lemma_increasing_times(b, c, den);
        }
    }
    law_nearest_is_unique(t, den, b);
}

/// The nearest number to a size between two neighbours is one of the two.
proof fn lemma_between(t: nat, den: nat, b: u32)
    requires
        den > 0,
        b + 1 < INFINITY,
        units(b) * den <= t <= (units(b) + gap(b)) * den,
    ensures
        2 * t < (2 * units(b) + gap(b)) * den ==> is_nearest(t, den, b),
        2 * t > (2 * units(b) + gap(b)) * den ==> is_nearest(t, den, (b + 1) as u32),
        2 * t == (2 * units(b) + gap(b)) * den && b % 2 == 0 ==> is_nearest(t, den, b),
        2 * t == (2 * units(b) + gap(b)) * den && b % 2 == 1 ==> is_nearest(
            t,
            den,
            (b + 1) as u32,
        ),
{
    let n = (b + 1) as u32;
    lemma_step(b);
    let (u, g) = (units(b) as int, gap(b) as int);
    assert((2 * u + g) * den == u * den + (u + g) * den) by (nonlinear_arith);
    let r = if 2 * t < (2 * u + g) * den || (2 * t == (2 * u + g) * den && b % 2 == 0) {
        b
    } else {
        n
    };
    assert forall|c: u32| c < INFINITY && c != r implies off(t, den, r) < #[trigger] off(t, den, c)
        || (off(t, den, r) == off(t, den, c) && r % 2 == 0) by {
        if c <= b {
            lemma_increasing_times(c, b, den);
        } else {
            lemma_increasing_times(n, c, den);
        }
    }
}

// ---------- rounding ----------

/// The significand and the exponent of a positive number.
pub(crate) fn split(b: u32) -> (r: (u32, u32))
    requires
        b < INFINITY,
    ensures
        units(b) == r.0 * pow2((r.1 - 1) as nat),
        r.0 < 2 * BINADE,
        1 <= r.1 <= 254,
        r.0 < BINADE ==> r.1 == 1,
        b >= BINADE ==> r.0 >= BINADE && b == r.1 * BINADE + (r.0 - BINADE),
        b < BINADE ==> r.0 == b && r.1 == 1,
{
    proof {
        lemma_double(0);
        assert(b % SIGN == b);
        assert(b * pow2(0) == b) by (nonlinear_arith)
            requires
                pow2(0) == 1,
        ;
    }
    if b < BINADE {
        (b, 1)
    } else {
        (b % BINADE + BINADE, b / BINADE)
    }
}

/// Of `b` and the next number, the one to take for a size that lies `rem` parts beyond `b` where
/// the next number lies `whole` parts beyond it.
fn round_up(b: u32, rem: u64, whole: u64) -> (r: u32)
    requires
        b + 1 < INFINITY,
        rem <= whole <= 0x100_0000_0000,
    ensures
        2 * rem < whole ==> r == b,
        2 * rem > whole ==> r == b + 1,
        2 * rem == whole && b % 2 == 0 ==> r == b,
        2 * rem == whole && b % 2 == 1 ==> r == b + 1,
{
    if 2 * rem < whole || (2 * rem == whole && b % 2 == 0) {
        b
    } else {
        b + 1
    }
}

/// The number nearest to `x` times the gap at exponent `e`.
pub(crate) fn encode(x: u64, e: u32) -> (r: u32)
    requires
        1 <= e <= 200,
    ensures
        r == nearest((x * pow2((e - 1) as nat)) as nat, 1),
        is_nearest((x * pow2((e - 1) as nat)) as nat, 1, r),
        x < 2 * BINADE ==> units(r) == x * pow2((e - 1) as nat),
        x >= BINADE ==> r >= e * BINADE,
        r <= (e + 41) * BINADE,
{
    let ghost g = pow2((e - 1) as nat);
    let ghost t = (x * g) as nat;
    assert(x * g >= 0) by (nonlinear_arith)
        requires
            x >= 0,
            g >= 0,
    ;
    if x < 0x0100_0000 {
        let mut y: u32 = x as u32;
        let mut f: u32 = e;
        while y < BINADE && f > 1
            invariant
                y < 2 * BINADE,
                1 <= f <= e <= 200,
                g == pow2((e - 1) as nat),
                y * pow2((f - 1) as nat) == x * g,
                x >= BINADE ==> y == x && f == e,
            decreases f,
        {
            proof {
                lemma_double((f - 2) as nat);
                let h = pow2((f - 2) as nat) as int;
                assert((2 * y) * h == y * (2 * h)) by (nonlinear_arith);
            }
            y = 2 * y;
            f = f - 1;
        }
        let r = if y < BINADE {
            y
        } else {
            f * BINADE + (y - BINADE)
        };
        proof {
            if y < BINADE {
                lemma_double(0);
                assert(r % SIGN == r);
            } else {
                lemma_units_of(f as nat, y as nat);
            }
            assert(units(r) * 1 == t);
            lemma_exact(t, 1, r);
        }
        return r;
    }
    let mut q: u64 = x;
    let mut p: u64 = 1;
    let mut rem: u64 = 0;
    let mut s: u32 = 0;
    proof {
        vstd::arithmetic::power2::lemma2_to64();
        vstd::arithmetic::power2::lemma2_to64_rest();
    }
    while q >= 0x0100_0000
        invariant
            x == q * p + rem,
            rem < p,
            q >= BINADE,
            s <= 40,
            p == pow2(s as nat),
            p <= 0x100_0000_0000,
            pow2(40) == 0x100_0000_0000,
        decreases q,
    {
        proof {
            assert(p < 0x100_0000_0000) by (nonlinear_arith)
                requires
                    q * p <= 0xFFFF_FFFF_FFFF_FFFF,
                    q >= 0x0100_0000,
                    p >= 0,
            ;
            lemma_double(s as nat);
            if s == 40 {
                assert(false);
            }
            assert(p <= 0x80_0000_0000) by {
                if s < 39 {
                    vstd::arithmetic::power2::lemma_pow2_strictly_increases(s as nat, 39);
                }
                lemma_double(39);
            }
            let (h, low) = (q / 2, q % 2);
            assert(q * p + rem == h * (2 * p) + (low * p + rem)) by (nonlinear_arith)
                requires
                    q == 2 * h + low,
            ;
            assert(low == 0 ==> low * p == 0) by (nonlinear_arith);
            assert(low == 1 ==> low * p == p) by (nonlinear_arith);
        }
        if q % 2 == 1 {
            rem = rem + p;
        }
        q = q / 2;
        p = 2 * p;
        s = s + 1;
    }
    let low: u32 = (e + s) * BINADE + (q as u32 - BINADE);
    proof {
        lemma_units_of((e + s) as nat, q as nat);
        vstd::arithmetic::power2::lemma_pow2_adds(s as nat, (e - 1) as nat);
        let big = (p * g) as int;
        assert(big == pow2((e + s - 1) as nat));
        assert(t == q * big + rem * g) by (nonlinear_arith)
            requires
                t == x * g,
                x == q * p + rem,
                big == p * g,
        ;
        assert(0 <= rem * g <= big) by (nonlinear_arith)
            requires
                0 <= rem < p,
                big == p * g,
                g > 0,
        ;
        assert((units(low) + gap(low)) * 1 == q * big + big);
        assert((2 * units(low) + gap(low)) * 1 == 2 * (q * big) + big);
        assert(2 * rem < p ==> 2 * (rem * g) < big) by (nonlinear_arith)
            requires
                big == p * g,
                g > 0,
        ;
        assert(2 * rem > p ==> 2 * (rem * g) > big) by (nonlinear_arith)
            requires
                big == p * g,
                g > 0,
        ;
        assert(2 * rem == p ==> 2 * (rem * g) == big) by (nonlinear_arith)
            requires
                big == p * g,
        ;
        lemma_between(t, 1, low);
    }
    let r = round_up(low, rem, p);
    proof {
        law_nearest_is_unique(t, 1, r);
    }
    r
}

// ---------- quotients ----------

/// `n / d`.
pub open spec fn ratio(n: int, d: int) -> u32 {
    nearest((n * one()) as nat, d as nat)
}

/// Divides `n` by `d`.
pub fn divide(n: u16, d: u16) -> (r: u32)
    requires
        d > 0,
    ensures
        r == ratio(n as int, d as int),
        is_nearest((n * one()) as nat, d as nat, r),
{
    let ghost t = (n * one()) as nat;
    assert(n * one() >= 0) by (nonlinear_arith)
        requires
            n >= 0,
            one() >= 0,
    ;
    if n == 0 {
        proof {
            assert(units(0) == 0);
            assert(units(0) * d == 0 && n * one() == 0) by (nonlinear_arith)
                requires
                    units(0) == 0,
                    n == 0,
            ;
            lemma_exact(t, d as nat, 0);
        }
        return 0;
    }
    let den: u64 = d as u64;
    let mut num: u64 = n as u64;
    let mut k: u32 = 0;
    proof {
        vstd::arithmetic::power2::lemma2_to64();
        vstd::arithmetic::power2::lemma2_to64_rest();
        assert(n * pow2(0) == n) by (nonlinear_arith)
            requires
                pow2(0) == 1,
        ;
    }
    while num < den * 0x0080_0000
        invariant
            1 <= den <= 0xFFFF,
            num < den * 0x0100_0000,
            num == n * pow2(k as nat),
            n >= 1,
            k <= 40,
            pow2(40) == 0x100_0000_0000,
        decreases 40 - k,
    {
        proof {
            if k == 40 {
                assert(num >= 0x100_0000_0000) by (nonlinear_arith)
                    requires
                        num == n * pow2(k as nat),
                        pow2(k as nat) == 0x100_0000_0000,
                        n >= 1,
                ;
            }
            lemma_double(k as nat);
            let w = pow2(k as nat) as int;
            assert(n * (2 * w) == 2 * (n * w)) by (nonlinear_arith);
        }
        num = 2 * num;
        k = k + 1;
    }
    let q: u64 = num / den;
    let rem: u64 = num % den;
    proof {
        assert(num == q * den + rem && rem < den) by (nonlinear_arith)
            requires
                den >= 1,
                q == num / den,
                rem == num % den,
        ;
        assert(0x0080_0000 <= q < 0x0100_0000) by (nonlinear_arith)
            requires
                num == q * den + rem,
                0 <= rem < den,
                den * 0x0080_0000 <= num < den * 0x0100_0000,
        ;
    }
    let low: u32 = (150 - k) * BINADE + (q as u32 - BINADE);
    proof {
        let g = pow2((149 - k) as nat);
        lemma_units_of((150 - k) as nat, q as nat);
        vstd::arithmetic::power2::lemma_pow2_adds(k as nat, (149 - k) as nat);
        let w = pow2(k as nat);
        assert(t == num * g) by (nonlinear_arith)
            requires
                t == n * (w * g),
                num == n * w,
        ;
        assert(t == (q * g) * den + rem * g) by (nonlinear_arith)
            requires
                t == num * g,
                num == q * den + rem,
        ;
        assert(0 <= rem * g <= g * den) by (nonlinear_arith)
            requires
                0 <= rem < den,
                g > 0,
        ;
        let u = (q * g) as int;
        assert((u + g) * den == u * den + g * den) by (nonlinear_arith);
        assert((2 * u + g) * den == 2 * (u * den) + g * den) by (nonlinear_arith);
        assert(2 * rem < den ==> 2 * (rem * g) < g * den) by (nonlinear_arith)
            requires
                g > 0,
        ;
        assert(2 * rem > den ==> 2 * (rem * g) > g * den) by (nonlinear_arith)
            requires
                g > 0,
        ;
        assert(2 * rem == den ==> 2 * (rem * g) == g * den) by (nonlinear_arith);
        lemma_between(t, d as nat, low);
    }
    let r = round_up(low, rem, den);
    proof {
        law_nearest_is_unique(t, d as nat, r);
    }
    r
}

// ---------- sums ----------

/// The bits of 2 to the power of 64.
pub const VAST: u32 = 0x5F80_0000;

/// A finite number, with its sign, counted in least positive numbers.
pub open spec fn value(b: u32) -> int {
    if b < SIGN {
        units(b) as int
    } else {
        -units(b)
    }
}

/// A number from minus to plus 2 to the power of 64.
pub open spec fn moderate(b: u32) -> bool {
    b % SIGN <= VAST
}

/// The number with the other sign.
pub open spec fn minus(b: u32) -> u32 {
    if b < SIGN {
        (b + SIGN) as u32
    } else {
        (b - SIGN) as u32
    }
}

/// The number with the other sign.
pub fn negate(b: u32) -> (r: u32)
    ensures
        r == minus(b),
{
    if b < SIGN {
        b + SIGN
    } else {
        b - SIGN
    }
}

/// `x + y`. Zero is negative only as the sum of two negative zeros.
pub open spec fn plus(x: u32, y: u32) -> u32 {
    let v = value(x) + value(y);
    if v > 0 {
        nearest(v as nat, 1)
    } else if v < 0 {
        (SIGN + nearest((-v) as nat, 1)) as u32
    } else if x >= SIGN && y >= SIGN {
        SIGN
    } else {
        0
    }
}

/// A number is the nearest one to a size that differs from it by less than a quarter of the
/// distance to the next number.
proof fn lemma_close(t: nat, b: u32)
    requires
        BINADE <= b,
        b + 1 < INFINITY,
        units(b) - t <= 0 ==> 4 * (t - units(b)) < gap(b),
        units(b) - t > 0 ==> 4 * (units(b) - t) < gap(b),
    ensures
        is_nearest(t, 1, b),
        nearest(t, 1) == b,
{
    if t >= units(b) {
        lemma_between(t, 1, b);
    } else {
        let a = (b - 1) as u32;
        lemma_step(a);
        let e = b / BINADE;
        if a / BINADE == e {
            assert(gap(a) == gap(b));
        } else {
            assert(a / BINADE == e - 1);
            lemma_double(0);
            if e >= 2 {
                lemma_double((e - 2) as nat);
            }
        }
        lemma_between(t, 1, a);
    }
    law_nearest_is_unique(t, 1, b);
}

/// The sum of the sizes of `x` and `y`, or their difference.
spec fn combined(x: u32, y: u32, subtract: bool) -> int {
    if subtract {
        units(x) - units(y)
    } else {
        (units(x) + units(y)) as int
    }
}

/// The number nearest to the sum of the sizes of `x` and `y`, or to their difference, and whether
/// that is zero.
fn combine(x: u32, y: u32, subtract: bool) -> (r: (bool, u32))
    requires
        x <= VAST,
        y <= x,
    ensures
        combined(x, y, subtract) >= 0,
        r.0 == (combined(x, y, subtract) == 0),
        r.1 == nearest(combined(x, y, subtract) as nat, 1),
        r.1 < INFINITY,
{
    let (mx, ex) = split(x);
    let (my, ey) = split(y);
    let ghost v = combined(x, y, subtract);
    proof {
        lemma_increasing(y, x);
    }
    let apart: u32 = ex - ey;
    let ghost gy = pow2((ey - 1) as nat);
    let ghost gx = pow2((ex - 1) as nat);
    let ghost w = pow2(apart as nat);
    proof {
        vstd::arithmetic::power2::lemma_pow2_adds(apart as nat, (ey - 1) as nat);
        vstd::arithmetic::power2::lemma2_to64();
        if 26 < apart {
            vstd::arithmetic::power2::lemma_pow2_strictly_increases(26, apart as nat);
        }
    }
    if apart >= 26 {
        proof {
            assert(4 * (my * gy) < gx) by (nonlinear_arith)
                requires
                    gx == w * gy,
                    w >= 0x0400_0000,
                    my < 0x0100_0000,
                    gy > 0,
            ;
            assert(x / BINADE == ex);
            assert(units(y) >= 0);
            lemma_close(v as nat, x);
            assert(mx * gx >= gx) by (nonlinear_arith)
                requires
                    mx >= 1,
                    gx >= 0,
            ;
        }
        return (false, x);
    }
    let mut wide: u64 = mx as u64;
    let mut i: u32 = 0;
    proof {
        lemma_double(0);
        assert(mx * pow2(0) == mx) by (nonlinear_arith)
            requires
                pow2(0) == 1,
        ;
    }
    while i < apart
        invariant
            i <= apart < 26,
            wide == mx * pow2(i as nat),
            mx < 0x0100_0000,
            pow2(26) == 0x0400_0000,
        decreases apart - i,
    {
        proof {
            lemma_double(i as nat);
            vstd::arithmetic::power2::lemma_pow2_strictly_increases(i as nat, 26);
            let h = pow2(i as nat) as int;
            assert(mx * (2 * h) == 2 * (mx * h)) by (nonlinear_arith);
            assert(mx * h < 0x0100_0000 * 0x0400_0000) by (nonlinear_arith)
                requires
                    0 <= mx < 0x0100_0000,
                    0 <= h < 0x0400_0000,
            ;
        }
        wide = 2 * wide;
        i = i + 1;
    }
    proof {
        if apart < 26 {
            vstd::arithmetic::power2::lemma_pow2_strictly_increases(apart as nat, 26);
        }
        assert(wide * gy == mx * gx) by (nonlinear_arith)
            requires
                wide == mx * w,
                gx == w * gy,
        ;
        assert(wide < 0x0100_0000 * 0x0400_0000) by (nonlinear_arith)
            requires
                wide == mx * w,
                0 <= mx < 0x0100_0000,
                0 <= w < 0x0400_0000,
        ;
        assert(wide >= my) by (nonlinear_arith)
            requires
                wide * gy >= my * gy,
                gy > 0,
        ;
        assert((wide + my) * gy == wide * gy + my * gy) by (nonlinear_arith);
        assert((wide - my) * gy == wide * gy - my * gy) by (nonlinear_arith);
    }
    let total: u64 = if subtract {
        wide - my as u64
    } else {
        wide + my as u64
    };
    assert(v == total * gy);
    assert((total == 0) == (v == 0)) by (nonlinear_arith)
        requires
            v == total * gy,
            gy > 0,
    ;
    (total == 0, encode(total, ey))
}

/// Adds `x` and `y`.
pub fn sum(x: u32, y: u32) -> (r: u32)
    requires
        moderate(x),
        moderate(y),
    ensures
        r == plus(x, y),
        r % SIGN < INFINITY,
{
    let (a, b) = (x % SIGN, y % SIGN);
    assert(units(a) == units(x) && units(b) == units(y));
    let same = (x < SIGN) == (y < SIGN);
    let (zero, size) = if a >= b {
        combine(a, b, !same)
    } else {
        combine(b, a, !same)
    };
    let negative = if a >= b {
        x >= SIGN
    } else {
        y >= SIGN
    };
    if zero {
        proof {
            lemma_increasing(0, a);
            lemma_increasing(0, b);
            assert(units(0) == 0);
        }
        if x >= SIGN && y >= SIGN {
            SIGN
        } else {
            0
        }
    } else if negative {
        SIGN + size
    } else {
        size
    }
}

// ---------- products ----------

/// A whole number.
pub open spec fn whole(n: nat) -> u32 {
    nearest(n * one(), 1)
}

/// `x` times `y`, both positive.
pub open spec fn product(x: u32, y: u32) -> u32 {
    nearest(units(x) * units(y), one())
}

/// What is nearest to a size is nearest to it however the fraction is expanded.
pub(crate) proof fn lemma_expand(t: nat, den: nat, k: nat, b: u32)
    requires
        k > 0,
        is_nearest(t, den, b),
    ensures
        is_nearest(t * k, den * k, b),
{
    assert forall|c: u32| #[trigger] off(t * k, den * k, c) == off(t, den, c) * k by {
        let u = units(c);
        assert(u * (den * k) - t * k == (u * den - t) * k) by (nonlinear_arith);
        assert((u * den - t) * k >= 0 <==> u * den - t >= 0) by (nonlinear_arith)
            requires
                k > 0,
        ;
        assert(-((u * den - t) * k) == (-(u * den - t)) * k) by (nonlinear_arith);
    }
    assert forall|c: u32| c < INFINITY && c != b implies off(t * k, den * k, b) < #[trigger] off(
        t * k,
        den * k,
        c,
    ) || (off(t * k, den * k, b) == off(t * k, den * k, c) && b % 2 == 0) by {
        let (p, q) = (off(t, den, b), off(t, den, c));
        assert(p < q ==> p * k < q * k) by (nonlinear_arith)
            requires
                k > 0,
        ;
    }
}

/// Every significand stands at every exponent for some number.
pub(crate) proof fn lemma_representable(m: nat, e: nat) -> (b: u32)
    requires
        m < 2 * BINADE,
        1 <= e <= 254,
    ensures
        b < INFINITY,
        units(b) == m * pow2((e - 1) as nat),
    decreases e,
{
    if m >= BINADE {
        lemma_units_of(e, m);
        (e * BINADE + (m - BINADE)) as u32
    } else if e == 1 {
        lemma_double(0);
        assert(m * pow2(0) == m) by (nonlinear_arith)
            requires
                pow2(0) == 1,
        ;
        m as u32
    } else {
        lemma_double((e - 2) as nat);
        let h = pow2((e - 2) as nat);
        assert((2 * m) * h == m * (2 * h)) by (nonlinear_arith);
        lemma_representable(2 * m, (e - 1) as nat)
    }
}

/// A whole number below 2 to the power of 24 is held exactly.
pub proof fn lemma_whole_exact(n: nat)
    requires
        n < 2 * BINADE,
    ensures
        whole(n) < INFINITY,
        units(whole(n)) == n * one(),
        rounded(units(whole(n)) as int, one() as int) == n,
{
    let b = lemma_representable(n, 150);
    lemma_exact(n * one(), 1, b);
    assert(1 * one() == one()) by (nonlinear_arith);
    lemma_rounded_expand(n as int, 1, one() as int);
}

pub proof fn lemma_one()
    ensures
        units(ONE) == one(),
        units(VAST) == pow2(64) * one(),
{
    lemma_units_of(127, BINADE as nat);
    lemma_units_of(191, BINADE as nat);
    vstd::arithmetic::power2::lemma2_to64();
    vstd::arithmetic::power2::lemma_pow2_adds(23, 126);
    vstd::arithmetic::power2::lemma_pow2_adds(23, 190);
    vstd::arithmetic::power2::lemma_pow2_adds(64, 149);
}

/// A number from 0 to 1, times a whole number, is at most that number.
pub proof fn lemma_product_bound(b: u32, n: nat)
    requires
        b <= ONE,
        n <= pow2(64),
    ensures
        is_nearest(n * one(), 1, whole(n)),
        is_nearest(units(b) * units(whole(n)), one(), product(b, whole(n))),
        product(b, whole(n)) <= whole(n) <= VAST,
{
    lemma_one();
    lemma_increasing(b, ONE);
    lemma_increasing(VAST, LARGEST);
    assert(n * one() <= units(VAST)) by (nonlinear_arith)
        requires
            n <= pow2(64),
            units(VAST) == pow2(64) * one(),
    ;
    assert(units(VAST) * 1 == units(VAST));
    law_nearest_exists(n * one(), 1);
    lemma_exact(units(VAST), 1, VAST);
    law_nearest_keeps_order(n * one(), units(VAST), 1);
    let w = whole(n);
    lemma_increasing(w, VAST);
    let (x, y, l) = (units(b), units(w), units(LARGEST));
    assert(x * y <= y * one() <= l * one()) by (nonlinear_arith)
        requires
            x <= one(),
            y <= l,
    ;
    law_nearest_exists(x * y, one());
    lemma_exact(y * one(), one(), w);
    law_nearest_keeps_order(x * y, y * one(), one());
}

/// Multiplies `b`, from 0 to 1, by a whole number.
pub fn times(b: u32, n: u64) -> (r: u32)
    requires
        b <= ONE,
    ensures
        r == product(b, whole(n as nat)),
        r <= VAST,
{
    let (m, e) = split(b);
    let near = encode(n, 150);
    let ghost w = whole(n as nat);
    assert(near == w);
    let (k, s): (u32, u32) = if n < 0x0100_0000 {
        (n as u32, 0)
    } else {
        let (mw, ew) = split(near);
        (mw, ew - 150)
    };
    let ghost shift = pow2(s as nat);
    proof {
        lemma_double(0);
        if n < 0x0100_0000 {
            assert(units(w) == (k * shift) * one()) by (nonlinear_arith)
                requires
                    units(w) == n * one(),
                    k == n,
                    shift == 1,
            ;
        } else {
            vstd::arithmetic::power2::lemma_pow2_adds(s as nat, 149);
            assert(units(w) == (k * shift) * one()) by (nonlinear_arith)
                requires
                    units(w) == k * (shift * one()),
            ;
        }
        assert(m * k <= 0x0100_0000 * 0x0100_0000) by (nonlinear_arith)
            requires
                0 <= m <= 0x0100_0000,
                0 <= k <= 0x0100_0000,
        ;
    }
    let x: u64 = m as u64 * k as u64;
    let r = encode(x, e + s);
    proof {
        let g = pow2((e - 1) as nat);
        vstd::arithmetic::power2::lemma_pow2_adds((e - 1) as nat, s as nat);
        let t = (x * (g * shift)) as nat;
        assert(t * one() == units(b) * units(w)) by (nonlinear_arith)
            requires
                t == x * (g * shift),
                x == m * k,
                units(b) == m * g,
                units(w) == (k * shift) * one(),
        ;
        lemma_expand(t, 1, one(), r);
        assert(1 * one() == one()) by (nonlinear_arith);
        law_nearest_is_unique(units(b) * units(w), one(), r);
        vstd::arithmetic::power2::lemma2_to64();
        lemma_product_bound(b, n as nat);
    }
    r
}

// ---------- rounding to whole numbers ----------

/// `num / den`, rounded to the nearest integer, halves upwards.
pub open spec fn rounded(num: int, den: int) -> int {
    (2 * num + den) / (2 * den)
}

/// The whole number nearest to the positive number `b`, halves upwards, as far as it can be held.
pub open spec fn round_of(b: u32) -> int {
    let n = rounded(units(b) as int, one() as int);
    if n > usize::MAX {
        usize::MAX as int
    } else {
        n
    }
}

/// Expanding a fraction does not change what it is rounded to.
pub(crate) proof fn lemma_rounded_expand(num: int, den: int, k: int)
    requires
        num >= 0,
        den > 0,
        k > 0,
    ensures
        rounded(num * k, den * k) == rounded(num, den),
{
    let (a, d) = (2 * num + den, 2 * den);
    let (q, r) = (a / d, a % d);
    vstd::arithmetic::div_mod::lemma_fundamental_div_mod(a, d);
    vstd::arithmetic::div_mod::lemma_mod_bound(a, d);
    assert(2 * (num * k) + den * k == q * (2 * (den * k)) + r * k) by (nonlinear_arith)
        requires
            2 * num + den == (2 * den) * q + r,
    ;
    assert(0 <= r * k < 2 * (den * k)) by (nonlinear_arith)
        requires
            0 <= r < 2 * den,
            k > 0,
    ;
    vstd::arithmetic::div_mod::lemma_fundamental_div_mod_converse(
        2 * (num * k) + den * k,
        2 * (den * k),
        q,
        r * k,
    );
}

/// Rounds a positive number to a whole one.
pub fn round(b: u32) -> (n: usize)
    requires
        b < INFINITY,
    ensures
        n == round_of(b),
{
    let (m, e) = split(b);
    let ghost g = pow2((e - 1) as nat) as int;
    proof {
        vstd::arithmetic::power2::lemma2_to64();
    }
    if e < 126 {
        proof {
            vstd::arithmetic::power2::lemma_pow2_adds(24, 124);
            lemma_double(148);
            if e - 1 < 124 {
                vstd::arithmetic::power2::lemma_pow2_strictly_increases((e - 1) as nat, 124);
            }
            let big = pow2(124) as int;
            assert(m * g < 0x0100_0000 * big) by (nonlinear_arith)
                requires
                    0 <= m < 0x0100_0000,
                    0 < g <= big,
            ;
            let twice = (2 * units(b) + one()) as int;
            vstd::arithmetic::div_mod::lemma_fundamental_div_mod_converse(
                twice,
                2 * one() as int,
                0,
                twice,
            );
        }
        return 0;
    }
    if e <= 150 {
        let mut p: u64 = 1;
        let mut i: u32 = e;
        proof {
            lemma_double(0);
        }
        while i < 150
            invariant
                126 <= e <= i <= 150,
                p == pow2((i - e) as nat),
                p <= 0x0100_0000,
                pow2(24) == 0x0100_0000,
            decreases 150 - i,
        {
            proof {
                lemma_double((i - e) as nat);
                if i - e + 1 < 24 {
                    vstd::arithmetic::power2::lemma_pow2_strictly_increases((i - e + 1) as nat, 24);
                }
            }
            p = 2 * p;
            i = i + 1;
        }
        let n: u64 = (2 * m as u64 + p) / (2 * p);
        proof {
            vstd::arithmetic::power2::lemma_pow2_adds((150 - e) as nat, (e - 1) as nat);
            lemma_rounded_expand(m as int, p as int, g);
            assert(n <= 2 * m + p) by (nonlinear_arith)
                requires
                    p >= 1,
                    m >= 0,
                    n == (2 * m + p) / (2 * p),
            ;
        }
        return n as usize;
    }
    let mut n: usize = m as usize;
    let mut i: u32 = 150;
    let ghost full = m * pow2((e - 150) as nat);
    proof {
        lemma_double(0);
        vstd::arithmetic::power2::lemma_pow2_adds((e - 150) as nat, 149);
        let far = pow2((e - 150) as nat) as int;
        assert(units(b) == full * one()) by (nonlinear_arith)
            requires
                units(b) == m * (far * one()),
                full == m * far,
        ;
        assert(full >= 0) by (nonlinear_arith)
            requires
                full == m * far,
                far >= 0,
                m >= 0,
        ;
        assert(1 * one() == one()) by (nonlinear_arith);
        lemma_rounded_expand(full, 1, one() as int);
        assert(m * pow2(0) == m) by (nonlinear_arith)
            requires
                pow2(0) == 1,
        ;
    }
    while i < e
        invariant
            150 <= i <= e <= 254,
            n == m * pow2((i - 150) as nat),
            full == m * pow2((e - 150) as nat),
            round_of(b) == if full > usize::MAX {
                usize::MAX as int
            } else {
                full
            },
        decreases e - i,
    {
        proof {
            lemma_double((i - 150) as nat);
            let h = pow2((i - 150) as nat) as int;
            assert(m * (2 * h) == 2 * (m * h)) by (nonlinear_arith);
            let far = pow2((e - 150) as nat) as int;
            if i + 1 < e {
                vstd::arithmetic::power2::lemma_pow2_strictly_increases(
                    (i - 149) as nat,
                    (e - 150) as nat,
                );
            }
            assert(m * (2 * h) <= m * far) by (nonlinear_arith)
                requires
                    2 * h <= far,
                    m >= 0,
            ;
        }
        if n > usize::MAX / 2 {
            return usize::MAX;
        }
        n = 2 * n;
        i = i + 1;
    }
    n
}

/// A greater number is not rounded to a smaller one.
pub proof fn lemma_round_keeps_order(a: u32, b: u32)
    requires
        a <= b < INFINITY,
    ensures
        round_of(a) <= round_of(b),
{
    lemma_increasing(a, b);
    let d = one() as int;
    vstd::arithmetic::div_mod::lemma_div_is_ordered(2 * units(a) + d, 2 * units(b) + d, 2 * d);
}

/// Zero is rounded to zero.
pub proof fn lemma_round_zero()
    ensures
        round_of(0) == 0,
{
    assert(units(0) == 0);
    let o = one() as int;
    lemma_rounded_expand(0, 1, o);
    assert(1 * o == o && 0 * o == 0) by (nonlinear_arith);
    assert(rounded(0, o) == rounded(0, 1));
    assert(1int / 2 == 0);
}

/// A greater number gives no smaller product.
pub proof fn lemma_product_keeps_order(a: u32, b: u32, n: nat)
    requires
        a <= b <= ONE,
        n <= pow2(64),
    ensures
        product(a, whole(n)) <= product(b, whole(n)),
{
    lemma_product_bound(b, n);
    lemma_one();
    lemma_increasing(a, b);
    lemma_increasing(b, ONE);
    let w = whole(n);
    lemma_increasing(w, LARGEST);
    let (x, y, z, l) = (units(a), units(b), units(w), units(LARGEST));
    assert(x * z <= y * z <= l * one()) by (nonlinear_arith)
        requires
            x <= y <= one(),
            z <= l,
    ;
    law_nearest_keeps_order(x * z, y * z, one());
}

/// Nothing of a number is nothing, and the whole of it is the number itself.
pub proof fn lemma_product_ends(n: nat)
    requires
        n <= pow2(64),
    ensures
        product(0, whole(n)) == 0,
        product(ONE, whole(n)) == whole(n),
{
    lemma_product_bound(0, n);
    lemma_one();
    assert(units(0) == 0);
    let z = units(whole(n));
    assert(units(0) * z == 0 && units(0) * one() == 0) by (nonlinear_arith)
        requires
            units(0) == 0,
    ;
    lemma_exact(0, one(), 0);
    assert(units(ONE) * z == z * one()) by (nonlinear_arith)
        requires
            units(ONE) == one(),
    ;
    lemma_exact(z * one(), one(), whole(n));
}

/// A quotient from 0 to 1 is near to the exact one.
proof fn lemma_ratio_near(i: nat, n: nat)
    requires
        0 < n,
        i <= n,
    ensures
        is_nearest(i * one(), n, ratio(i as int, n as int)),
        ratio(i as int, n as int) <= ONE,
        2 * off(i * one(), n, ratio(i as int, n as int)) <= n * pow2(125),
{
    let t = i * one();
    let x = ratio(i as int, n as int);
    lemma_one();
    lemma_increasing(ONE, LARGEST);
    assert(t <= units(ONE) * n <= units(LARGEST) * n) by (nonlinear_arith)
        requires
            t == i * one(),
            i <= n,
            units(ONE) == one(),
            units(ONE) <= units(LARGEST),
    ;
    assert((i * one()) as nat == t);
    law_nearest_exists(t, n);
    lemma_exact(units(ONE) * n, n, ONE);
    law_nearest_keeps_order(t, units(ONE) * n, n);
    let other = if units(x) * n > t {
        (x - 1) as u32
    } else {
        (x + 1) as u32
    };
    assert(units(0) == 0);
    assert(units(0) * n == 0) by (nonlinear_arith)
        requires
            units(0) == 0,
    ;
    if units(x) * n != t {
        assert(x != 0 || units(x) * n < t);
        if units(x) * n < t {
            assert(x != ONE);
        }
        let low = if other < x {
            other
        } else {
            x
        };
        lemma_step(low);
        let e = low / BINADE;
        vstd::arithmetic::power2::lemma2_to64();
        if e < 126 {
            vstd::arithmetic::power2::lemma_pow2_strictly_increases(
                if e == 0 {
                    0
                } else {
                    (e - 1) as nat
                },
                125,
            );
        }
        let (u, g) = (units(low), gap(low));
        assert(g <= pow2(125));
        assert((u + g) * n == u * n + g * n) by (nonlinear_arith);
        assert(0 < g * n <= n * pow2(125)) by (nonlinear_arith)
            requires
                0 < g <= pow2(125),
                n > 0,
        ;
        assert(off(t, n, x) <= off(t, n, other));
        assert(units(x) * n == u * n || units(x) * n == (u + g) * n);
    } else {
        assert(n * pow2(125) >= 0) by (nonlinear_arith)
            requires
                n >= 0,
                pow2(125) >= 0,
        ;
    }
}

/// A greater number gives no smaller quotient; `n / n` is 1, and nothing of `n` is nothing.
pub proof fn lemma_ratio_keeps_order(i: nat, j: nat, n: nat)
    requires
        0 < n,
        i <= j <= u16::MAX,
    ensures
        ratio(i as int, n as int) <= ratio(j as int, n as int) <= VAST,
        ratio(0, n as int) == 0,
        ratio(n as int, n as int) == ONE,
{
    let (s, t) = (i * one(), j * one());
    vstd::arithmetic::power2::lemma2_to64();
    lemma_one();
    lemma_increasing(VAST, LARGEST);
    assert(s <= t <= units(VAST) * n <= units(LARGEST) * n) by (nonlinear_arith)
        requires
            s == i * one(),
            t == j * one(),
            i <= j <= pow2(64),
            units(VAST) == pow2(64) * one(),
            units(VAST) <= units(LARGEST),
            n >= 1,
    ;
    assert((i * one()) as nat == s && (j * one()) as nat == t);
    law_nearest_keeps_order(s, t, n);
    lemma_exact(units(VAST) * n, n, VAST);
    law_nearest_keeps_order(t, units(VAST) * n, n);
    assert(units(0) == 0);
    assert(units(0) * n == 0 && 0 * one() == 0) by (nonlinear_arith)
        requires
            units(0) == 0,
    ;
    lemma_exact(0, n, 0);
    assert(units(ONE) * n == n * one()) by (nonlinear_arith)
        requires
            units(ONE) == one(),
    ;
    lemma_exact(n * one(), n, ONE);
}

/// `i / n`, times `n`, is rounded to `i` again.
pub proof fn lemma_ratio_times(i: nat, n: nat)
    requires
        0 < n <= u16::MAX,
        i <= n,
    ensures
        ratio(i as int, n as int) <= ONE,
        round_of(product(ratio(i as int, n as int), whole(n))) == i,
{
    let x = ratio(i as int, n as int);
    lemma_ratio_near(i, n);
    vstd::arithmetic::power2::lemma2_to64();
    lemma_product_bound(x, n);
    lemma_whole_exact(n);
    lemma_whole_exact(i);
    let p = product(x, whole(n));
    let (u, v, o) = (units(x), units(p), one());
    let t = u * units(whole(n));
    assert(t == (u * n) * o) by (nonlinear_arith)
        requires
            t == u * units(whole(n)),
            units(whole(n)) == n * o,
    ;
    assert(off(t, o, p) <= off(t, o, whole(i)));
    let d = off(i * o, n, x);
    assert(off(t, o, whole(i)) == d * o) by {
        assert((i * o) * o - (u * n) * o == (i * o - u * n) * o) by (nonlinear_arith);
        assert((i * o - u * n) * o >= 0 <==> i * o - u * n >= 0) by (nonlinear_arith)
            requires
                o > 0,
        ;
        assert(-((i * o - u * n) * o) == (u * n - i * o) * o) by (nonlinear_arith);
    }
    assert(v * o - (u * n) * o == (v - u * n) * o) by (nonlinear_arith);
    assert(-d <= v - u * n <= d) by (nonlinear_arith)
        requires
            -(d * o) <= (v - u * n) * o <= d * o,
            o > 0,
    ;
    assert(4 * d < o) by {
        vstd::arithmetic::power2::lemma_pow2_adds(16, 125);
        vstd::arithmetic::power2::lemma_pow2_strictly_increases(141, 148);
        lemma_double(148);
        assert(n * pow2(125) <= 0x1_0000 * pow2(125)) by (nonlinear_arith)
            requires
                n <= 0x1_0000,
        ;
    }
    assert(-o < 2 * (v - i * o) < o);
    assert(i * (2 * o) == 2 * (i * o)) by (nonlinear_arith);
    vstd::arithmetic::div_mod::lemma_fundamental_div_mod_converse(
        (2 * v + o) as int,
        2 * o as int,
        i as int,
        2 * v + o - 2 * (i * o),
    );
}

/// A sum of two positive numbers is at least as great as every number not beyond the exact sum.
pub proof fn lemma_sum_reaches(x: u32, y: u32, b: u32)
    requires
        x <= VAST,
        y <= VAST,
        b <= VAST,
        units(b) <= units(x) + units(y),
    ensures
        b <= plus(x, y) < INFINITY,
{
    let v = units(x) + units(y);
    let top = (VAST + BINADE) as u32;
    lemma_units_of(191, BINADE as nat);
    lemma_units_of(192, BINADE as nat);
    lemma_double(190);
    let g = pow2(190);
    assert(BINADE * (2 * g) == 2 * (BINADE * g)) by (nonlinear_arith);
    lemma_increasing(x, VAST);
    lemma_increasing(y, VAST);
    lemma_increasing(top, LARGEST);
    law_nearest_keeps_order(units(b), v, 1);
    law_nearest_keeps_order(v, units(top), 1);
    lemma_exact(units(b), 1, b);
    lemma_exact(units(top), 1, top);
    assert(units(0) == 0);
    lemma_increasing(0, b);
}

/// A sum of two positive numbers is no less than the first of them.
pub proof fn lemma_sum_grows(x: u32, y: u32)
    requires
        x <= VAST,
        y <= VAST,
    ensures
        x <= plus(x, y) < INFINITY,
{
    lemma_sum_reaches(x, y, x);
}

/// A sum of two positive numbers is at most every number not below the exact sum.
pub proof fn lemma_sum_stays_below(x: u32, y: u32, b: u32)
    requires
        x <= VAST,
        y <= VAST,
        b < INFINITY,
        units(x) + units(y) <= units(b),
    ensures
        plus(x, y) <= b,
{
    let v = units(x) + units(y);
    lemma_increasing(b, LARGEST);
    law_nearest_keeps_order(v, units(b), 1);
    lemma_exact(units(b), 1, b);
    lemma_increasing(0, x);
    lemma_increasing(0, y);
    assert(units(0) == 0);
}

/// Different numbers have different sizes.
pub proof fn lemma_strict(b: u32, c: u32)
    requires
        b < c < INFINITY,
    ensures
        units(b) < units(c),
{
    lemma_increasing(b, c);
}

/// The distance from a level below 1 to the next number.
pub proof fn lemma_level_gap(b: u32)
    requires
        b < ONE,
    ensures
        units(b) < units((b + 1) as u32) <= units(b) + pow2(125),
{
    lemma_step(b);
    vstd::arithmetic::power2::lemma2_to64();
    let e = b / BINADE;
    if e < 126 {
        vstd::arithmetic::power2::lemma_pow2_strictly_increases(
            if e == 0 {
                0
            } else {
                (e - 1) as nat
            },
            125,
        );
    }
}

/// A positive number less another one is no greater than the first of them.
pub proof fn lemma_difference_shrinks(x: u32, y: u32)
    requires
        x <= VAST,
        y <= VAST,
    ensures
        plus(x, minus(y)) >= SIGN || plus(x, minus(y)) <= x,
        plus(x, minus(y)) % SIGN < INFINITY,
{
    assert(minus(y) % SIGN == y);
    assert(units(minus(y)) == units(y));
    lemma_increasing(x, LARGEST);
    lemma_increasing(y, LARGEST);
    let v = units(x) - units(y);
    if v > 0 {
        law_nearest_keeps_order(v as nat, units(x), 1);
        lemma_exact(units(x), 1, x);
    } else if v < 0 {
        law_nearest_exists((-v) as nat, 1);
    }
}

/// A number, not taken at all, is nothing.
pub proof fn lemma_product_none(b: u32)
    ensures
        product(b, whole(0)) == 0,
{
    lemma_whole_exact(0);
    assert(0 * one() == 0 && units(b) * 0 == 0) by (nonlinear_arith);
    assert(units(0) == 0);
    assert(units(0) * one() == 0) by (nonlinear_arith)
        requires
            units(0) == 0,
    ;
    lemma_exact(0, one(), 0);
}

// ---------- laws ----------

/// Every size up to that of the largest number has a nearest number.
pub proof fn law_nearest_exists(t: nat, den: nat)
    requires
        den > 0,
        t <= units(LARGEST) * den,
    ensures
        is_nearest(t, den, nearest(t, den)),
{
    lemma_nearest_below(t, den, LARGEST);
}

proof fn lemma_nearest_below(t: nat, den: nat, top: u32)
    requires
        den > 0,
        top < INFINITY,
        t <= units(top) * den,
    ensures
        is_nearest(t, den, nearest(t, den)),
    decreases top,
{
    if t == units(top) * den {
        lemma_exact(t, den, top);
    } else if top == 0 {
        assert(units(0) == 0);
        assert(units(0) * den == 0) by (nonlinear_arith)
            requires
                units(0) == 0,
        ;
    } else {
        let b = (top - 1) as u32;
        if t <= units(b) * den {
            lemma_nearest_below(t, den, b);
        } else {
            lemma_step(b);
            lemma_between(t, den, b);
        }
    }
}

/// A greater size never has a smaller nearest number.
pub proof fn law_nearest_keeps_order(s: nat, t: nat, den: nat)
    requires
        den > 0,
        s <= t,
        t <= units(LARGEST) * den,
    ensures
        nearest(s, den) <= nearest(t, den),
{
    law_nearest_exists(s, den);
    law_nearest_exists(t, den);
    let (a, b) = (nearest(s, den), nearest(t, den));
    if b < a {
        lemma_increasing_times(b, a, den);
        assert(off(s, den, a) <= off(s, den, b));
        assert(off(t, den, b) <= off(t, den, a));
        assert(s == t);
    }
}

/// A number is the nearest one to itself, a sum with zero is the other number, and one times a
/// number is that number.
pub proof fn law_exact_results(b: u32)
    requires
        b < INFINITY,
    ensures
        nearest(units(b), 1) == b,
        plus(b, 0) == b,
        b > 0 ==> plus(b, minus(b)) == 0,
        product(b, ONE) == b,
{
    lemma_exact(units(b), 1, b);
    assert(units(0) == 0);
    lemma_increasing(0, b);
    assert(minus(b) % SIGN == b);
    lemma_one();
    lemma_exact(units(b) * one(), one(), b);
}

/// The least positive number counts one, and a number of the next exponent twice as much.
pub proof fn law_units_double(b: u32)
    requires
        b < INFINITY,
    ensures
        b <= BINADE ==> units(b) == b,
        BINADE <= b && b + BINADE < INFINITY ==> units((b + BINADE) as u32) == 2 * units(b),
{
    vstd::arithmetic::power2::lemma2_to64();
    assert(b % SIGN == b);
    if b == BINADE {
        lemma_units_of(1, BINADE as nat);
    }
    if BINADE <= b && b + BINADE < INFINITY {
        let c = (b + BINADE) as u32;
        let e = b / BINADE;
        assert(c % SIGN == c && c / BINADE == e + 1 && c % BINADE == b % BINADE);
        lemma_double((e - 1) as nat);
        let (m, g) = (b % BINADE + BINADE, pow2((e - 1) as nat));
        assert(m * (2 * g) == 2 * (m * g)) by (nonlinear_arith);
    }
}

/// The order of the patterns is that of the values they stand for.
pub proof fn law_order_is_of_values(a: u32, b: u32)
    requires
        a % SIGN < INFINITY,
        b % SIGN < INFINITY,
    ensures
        lower(a, b) <==> value(a) < value(b),
{
    let (x, y) = (a % SIGN, b % SIGN);
    assert(units(a) == units(x) && units(b) == units(y));
    if x <= y {
        lemma_increasing(x, y);
    } else {
        lemma_increasing(y, x);
    }
    lemma_increasing(0, x);
    lemma_increasing(0, y);
    assert(units(0) == 0);
}

/// Changing the sign of a number changes that of its value, and twice changes nothing.
pub proof fn law_minus(b: u32)
    requires
        b % SIGN < INFINITY,
    ensures
        value(minus(b)) == -value(b),
        minus(minus(b)) == b,
{
    assert(minus(b) % SIGN == b % SIGN);
}

/// A sum does not depend on the order, and where a number is exactly the sum, it is the result.
pub proof fn law_sums(x: u32, y: u32, b: u32)
    requires
        x % SIGN < INFINITY,
        y % SIGN < INFINITY,
        b % SIGN < INFINITY,
    ensures
        plus(x, y) == plus(y, x),
        value(b) == value(x) + value(y) && value(b) != 0 ==> plus(x, y) == b,
{
    let a = b % SIGN;
    assert(units(a) == units(b));
    lemma_exact(units(a), 1, a);
}

/// The nearest number is off by no more than half of the last digit: by one part in two to the power
/// of 24, or by half of the least positive number.
pub proof fn law_nearest_is_near(t: nat, den: nat, b: u32)
    requires
        den > 0,
        is_nearest(t, den, b),
        b < LARGEST,
    ensures
        b >= BINADE ==> 2 * off(t, den, b) * BINADE <= units(b) * den,
        b < BINADE ==> 2 * off(t, den, b) <= den,
{
    assert(units(0) == 0);
    assert(units(0) * den == 0) by (nonlinear_arith)
        requires
            units(0) == 0,
    ;
    let (u, g) = (units(b), gap(b));
    let d = off(t, den, b);
    assert(2 * d <= g * den) by {
        assert(g * den >= 0) by (nonlinear_arith)
            requires
                g >= 0,
                den >= 0,
        ;
        if u * den < t {
            let c = (b + 1) as u32;
            lemma_step(b);
            assert((u + g) * den == u * den + g * den) by (nonlinear_arith);
            assert(g * den > 0) by (nonlinear_arith)
                requires
                    g > 0,
                    den > 0,
            ;
            assert(d <= off(t, den, c));
        } else if u * den > t {
            let c = (b - 1) as u32;
            lemma_step(c);
            lemma_gaps(c);
            let h = gap(c);
            let v = units(c);
            assert((v + h) * den == v * den + h * den) by (nonlinear_arith);
            assert(0 < h * den <= g * den) by (nonlinear_arith)
                requires
                    0 < h <= g,
                    den > 0,
            ;
            assert(d <= off(t, den, c));
        }
    }
    assert(b % SIGN == b);
    vstd::arithmetic::power2::lemma2_to64();
    if b >= BINADE {
        let m = (b % BINADE + BINADE) as nat;
        assert(u == m * g);
        assert(2 * d * BINADE <= u * den) by (nonlinear_arith)
            requires
                2 * d <= g * den,
                u == m * g,
                m >= BINADE,
                g >= 0,
                den > 0,
        {
            assert((2 * d) * BINADE <= (g * den) * BINADE);
            assert((g * den) * BINADE <= (g * den) * m);
            assert((g * den) * m == (m * g) * den);
        }
    } else {
        assert(g == 1);
        assert(1 * den == den);
    }
}

/// Gaps do not shrink.
proof fn lemma_gaps(c: u32)
    requires
        c + 1 < INFINITY,
    ensures
        0 < gap(c) <= gap((c + 1) as u32),
{
    let (e, f) = (c / BINADE, ((c + 1) as u32) / BINADE);
    vstd::arithmetic::power2::lemma2_to64();
    assert(f == e || f == e + 1);
    if f == e + 1 && e > 0 {
        lemma_double((e - 1) as nat);
    }
}

/// A number is rounded to a whole one that is off by no more than a half, and halves go up.
pub proof fn law_round_is_near(b: u32)
    requires
        b < INFINITY,
        rounded(units(b) as int, one() as int) <= usize::MAX,
    ensures
        2 * (units(b) - round_of(b) * one()) < one(),
        -one() <= 2 * (units(b) - round_of(b) * one()),
{
    let (t, o) = (units(b) as int, one() as int);
    vstd::arithmetic::div_mod::lemma_fundamental_div_mod(2 * t + o, 2 * o);
    vstd::arithmetic::div_mod::lemma_mod_bound(2 * t + o, 2 * o);
    let n = round_of(b);
    assert((2 * o) * n == 2 * (n * o)) by (nonlinear_arith);
}

/// A number that is too large to be held as a whole one is rounded to the largest that can be held.
pub proof fn law_round_stops_at_the_largest(b: u32)
    ensures
        units(b) >= usize::MAX * one() ==> round_of(b) == usize::MAX,
{
    let (t, o, m) = (units(b) as int, one() as int, usize::MAX as int);
    if t >= m * o {
        vstd::arithmetic::power2::lemma_pow2_pos(149);
        vstd::arithmetic::div_mod::lemma_fundamental_div_mod(2 * t + o, 2 * o);
        vstd::arithmetic::div_mod::lemma_mod_bound(2 * t + o, 2 * o);
        let n = rounded(t, o);
        assert(n >= m) by (nonlinear_arith)
            requires
                2 * t + o < (2 * o) * n + 2 * o,
                t >= m * o,
                o > 0,
        ;
    }
}

/// A level, times a whole number and rounded, is off by no more than a half and the rounding of the
/// product.
pub proof fn law_share_is_near(v: u32, w: nat)
    requires
        v <= ONE,
        0 < w < 2 * BINADE,
    ensures
        ({
            let d = round_of(product(v, whole(w))) * one() - w * units(v);
            let slack = (BINADE + w) * one();
            -slack <= 2 * d * BINADE <= slack
        }),
{
    vstd::arithmetic::power2::lemma2_to64();
    lemma_product_bound(v, w);
    lemma_whole_exact(w);
    let (p, u, o) = (product(v, whole(w)), units(v), one());
    lemma_increasing(p, whole(w));
    lemma_round_keeps_order(p, whole(w));
    let t = u * units(whole(w));
    assert(t == (w * u) * o) by (nonlinear_arith)
        requires
            t == u * units(whole(w)),
            units(whole(w)) == w * o,
    ;
    assert(p < LARGEST);
    law_nearest_is_near(t, o, p);
    let q = units(p);
    let d = off(t, o, p);
    let e = if q < w * u {
        w * u - q
    } else {
        q - w * u
    };
    assert(d == e * o) by (nonlinear_arith)
        requires
            t == (w * u) * o,
            d == if q * o - t < 0 {
                -(q * o - t)
            } else {
                q * o - t
            },
            e == if q < w * u {
                w * u - q
            } else {
                q - w * u
            },
            o > 0,
    ;
    vstd::arithmetic::power2::lemma_pow2_adds(23, 126);
    assert(2 * e * BINADE <= w * o) by {
        if p >= BINADE {
            assert(2 * e * BINADE <= q) by (nonlinear_arith)
                requires
                    2 * d * BINADE <= q * o,
                    d == e * o,
                    o > 0,
            ;
        } else {
            assert(2 * e <= 1) by (nonlinear_arith)
                requires
                    2 * d <= o,
                    d == e * o,
                    o > 0,
            ;
            assert(w * o >= BINADE) by (nonlinear_arith)
                requires
                    o == 0x80_0000 * pow2(126),
                    pow2(126) >= 1,
                    w >= 1,
                    BINADE == 0x80_0000,
            ;
        }
    }
    assert(rounded(q as int, o as int) <= usize::MAX) by {
        vstd::arithmetic::div_mod::lemma_div_is_ordered(
            (2 * q + o) as int,
            (2 * units(whole(w)) + o) as int,
            2 * o as int,
        );
    }
    law_round_is_near(p);
    let f = round_of(p) * o - w * u;
    let slack = (BINADE + w) * o;
    assert(slack == BINADE * o + w * o) by (nonlinear_arith)
        requires
            slack == (BINADE + w) * o,
    ;
    assert(-(o + 2 * e) <= 2 * f <= o + 2 * e);
    assert(-slack <= 2 * f * BINADE <= slack) by (nonlinear_arith)
        requires
            -(o + 2 * e) <= 2 * f <= o + 2 * e,
            2 * e * BINADE <= w * o,
            slack == BINADE * o + w * o,
            BINADE == 0x80_0000,
    ;
}

/// Numbers that cancel out add up to zero, with a minus sign only where both have one.
pub proof fn law_sum_of_nothing(x: u32, y: u32)
    requires
        value(x) + value(y) == 0,
    ensures
        plus(x, y) == if x >= SIGN && y >= SIGN {
            SIGN
        } else {
            0
        },
        plus(x, minus(x)) == 0,
{
    assert(units(minus(x)) == units(x));
}

} // verus!
