//! The bit crusher: rounds samples to a coarse grid.
//!
//! A sample is a single-precision number, held by its bits. The grid has a power of two of levels
//! per unit; no levels at all leave the sound as it is.

use vstd::arithmetic::power2::pow2;
use vstd::prelude::*;

use crate::arith::{
    encode, lemma_double, lemma_exact, lemma_representable, lemma_rounded_expand, lemma_units_of,
    nearest, one, rounded, split, units, BINADE,
};
use crate::controls::{BIT_LEVELS, NBITS};
use crate::single::{INFINITY, LARGEST, SIGN};

verus! {

broadcast use vstd::arithmetic::power2::lemma_pow2_pos;

/// The finest grid.
pub const FINEST: u32 = 2048;

/// A number of levels that the crusher can be set to.
pub open spec fn is_grid(levels: u32) -> bool {
    levels == 0 || (levels <= FINEST && exists|k: nat| levels == #[trigger] pow2(k))
}

/// The step of the grid at which a sample of the given size ends up: the nearest one, halves away
/// from zero.
pub open spec fn grid_step(size: nat, levels: u32) -> int {
    rounded((size * levels) as int, one() as int)
}

/// What the crusher makes of a sample. The sign stays; what is not finite stays as it is, and a
/// sample so large that its place on the grid is beyond all numbers becomes infinite.
pub open spec fn crushed(x: u32, levels: u32) -> u32 {
    let a = x % SIGN;
    let sign = x - a;
    if levels == 0 || a >= INFINITY {
        x
    } else if units(a) * levels > units(LARGEST) {
        (sign + INFINITY) as u32
    } else {
        (sign + nearest((grid_step(units(a), levels) * one()) as nat, levels as nat)) as u32
    }
}

/// The size of a number with significand `m` and exponent `e`, times `levels`, which is 2 to the
/// power of `k`.
proof fn lemma_scaled(m: nat, e: nat, k: nat, size: nat, levels: u32)
    requires
        e >= 1,
        size == m * pow2((e - 1) as nat),
        levels == pow2(k),
    ensures
        size * levels == m * pow2((e + k - 1) as nat),
{
    vstd::arithmetic::power2::lemma_pow2_adds((e - 1) as nat, k);
    let (g, l) = (pow2((e - 1) as nat), pow2(k));
    assert(size * l == m * (g * l)) by (nonlinear_arith)
        requires
            size == m * g,
    ;
}

/// Large samples are on the grid.
proof fn lemma_large(m: nat, e: nat, k: nat, size: nat, levels: u32)
    requires
        e >= 1,
        e + k >= 150,
        size == m * pow2((e - 1) as nat),
        levels == pow2(k),
    ensures
        size * levels == (m * pow2((e + k - 150) as nat)) * one(),
{
    lemma_scaled(m, e, k, size, levels);
    vstd::arithmetic::power2::lemma_pow2_adds((e + k - 150) as nat, 149);
    let far = pow2((e + k - 150) as nat);
    assert(m * (far * one()) == (m * far) * one()) by (nonlinear_arith);
}

/// Small samples end up at zero.
proof fn lemma_small(m: nat, e: nat, k: nat, size: nat, levels: u32)
    requires
        e >= 1,
        e + k < 125,
        m < 2 * BINADE,
        size == m * pow2((e - 1) as nat),
        levels == pow2(k),
    ensures
        grid_step(size, levels) == 0,
{
    lemma_scaled(m, e, k, size, levels);
    let (g, h) = (pow2((e + k - 1) as nat), pow2(123));
    if e + k - 1 < 123 {
        vstd::arithmetic::power2::lemma_pow2_strictly_increases((e + k - 1) as nat, 123);
    }
    vstd::arithmetic::power2::lemma2_to64();
    vstd::arithmetic::power2::lemma_pow2_adds(24, 123);
    lemma_double(147);
    lemma_double(148);
    assert(m * g < 0x0100_0000 * h) by (nonlinear_arith)
        requires
            0 <= m < 0x0100_0000,
            0 < g <= h,
    ;
    let o = one() as int;
    let twice = 2 * (size * levels) + o;
    vstd::arithmetic::div_mod::lemma_fundamental_div_mod_converse(twice, 2 * o, 0, twice);
}

/// The other samples are rounded in the significand.
proof fn lemma_medium(m: nat, e: nat, k: nat, size: nat, levels: u32)
    requires
        e >= 1,
        e + k < 150,
        size == m * pow2((e - 1) as nat),
        levels == pow2(k),
    ensures
        grid_step(size, levels) == rounded(m as int, pow2((150 - e - k) as nat) as int),
{
    lemma_scaled(m, e, k, size, levels);
    let g = pow2((e + k - 1) as nat);
    vstd::arithmetic::power2::lemma_pow2_adds((150 - e - k) as nat, (e + k - 1) as nat);
    lemma_rounded_expand(m as int, pow2((150 - e - k) as nat) as int, g as int);
}

/// A significand is rounded to no more digits than it has.
proof fn lemma_rounded_bound(m: int, w: int)
    requires
        0 <= m < 2 * BINADE,
        w >= 2,
    ensures
        0 <= rounded(m, w) < 2 * BINADE,
{
    assert(0 <= (2 * m + w) / (2 * w) < 0x0100_0000) by (nonlinear_arith)
        requires
            w >= 2,
            0 <= m < 0x0100_0000,
    ;
}

/// A number of `n` steps of the grid.
proof fn lemma_steps(b: u32, n: nat, k: nat, levels: u32)
    requires
        k <= 149,
        levels == pow2(k),
        units(b) == n * pow2((149 - k) as nat),
    ensures
        units(b) * levels == n * one(),
{
    vstd::arithmetic::power2::lemma_pow2_adds((149 - k) as nat, k);
    let h = pow2((149 - k) as nat);
    assert(units(b) * levels == n * one()) by (nonlinear_arith)
        requires
            units(b) == n * h,
            one() == h * levels,
    ;
}

/// A sample on the grid is its own place on the grid.
proof fn lemma_on_grid(b: u32, levels: u32, n: nat)
    requires
        b < INFINITY,
        levels > 0,
        units(b) * levels == n * one(),
    ensures
        grid_step(units(b), levels) == n,
        nearest(n * one(), levels as nat) == b,
{
    assert(1 * one() == one()) by (nonlinear_arith);
    lemma_rounded_expand(n as int, 1, one() as int);
    assert((2 * n + 1) / 2 == n);
    lemma_exact(n * one(), levels as nat, b);
}

/// Rounds a sample to the grid.
pub fn crush(x: u32, levels: u32) -> (r: u32)
    requires
        is_grid(levels),
    ensures
        r == crushed(x, levels),
{
    let a = x % SIGN;
    if levels == 0 || a >= INFINITY {
        return x;
    }
    let sign = x - a;
    let ghost kk = choose|k: nat| levels == #[trigger] pow2(k);
    let mut k: u32 = 0;
    let mut p: u32 = 1;
    proof {
        vstd::arithmetic::power2::lemma2_to64();
        if kk > 11 {
            vstd::arithmetic::power2::lemma_pow2_strictly_increases(11, kk);
        }
    }
    while p < levels
        invariant
            levels == pow2(kk),
            kk <= 11,
            levels <= FINEST,
            k <= kk,
            p == pow2(k as nat),
        decreases kk - k,
    {
        proof {
            lemma_double(k as nat);
            if k + 1 < kk {
                vstd::arithmetic::power2::lemma_pow2_strictly_increases((k + 1) as nat, kk);
            }
            if k == kk {
                assert(false);
            }
        }
        p = 2 * p;
        k = k + 1;
    }
    proof {
        if k < kk {
            vstd::arithmetic::power2::lemma_pow2_strictly_increases(k as nat, kk);
        }
    }
    let (m, e) = split(a);
    let ghost size = units(a);
    let ghost scaled = size * levels;
    proof {
        lemma_scaled(m as nat, e as nat, k as nat, size, levels);
        lemma_units_of(254, (2 * BINADE - 1) as nat);
    }
    if e + k > 254 {
        proof {
            assert(m >= BINADE);
            vstd::arithmetic::power2::lemma_pow2_adds((e + k - 255) as nat, 254);
            lemma_double(253);
            let (far, h) = (pow2((e + k - 255) as nat), pow2(253));
            assert(m * (far * (2 * h)) > (2 * BINADE - 1) * h) by (nonlinear_arith)
                requires
                    m >= 0x0080_0000,
                    far >= 1,
                    h >= 1,
                    BINADE == 0x0080_0000,
            ;
        }
        return sign + INFINITY;
    }
    proof {
        let (g, h) = (pow2((e + k - 1) as nat), pow2(253));
        if e + k - 1 < 253 {
            vstd::arithmetic::power2::lemma_pow2_strictly_increases((e + k - 1) as nat, 253);
        }
        assert(m * g <= (2 * BINADE - 1) * h) by (nonlinear_arith)
            requires
                0 <= m <= 2 * BINADE - 1,
                0 <= g <= h,
        ;
    }
    if e + k >= 150 {
        proof {
            lemma_large(m as nat, e as nat, k as nat, size, levels);
            lemma_on_grid(a, levels, m as nat * pow2((e + k - 150) as nat));
        }
        return sign + a;
    }
    if e + k < 125 {
        proof {
            lemma_small(m as nat, e as nat, k as nat, size, levels);
            assert(units(0) == 0);
            assert(0 * one() == 0 && units(0) * levels == 0) by (nonlinear_arith)
                requires
                    units(0) == 0,
            ;
            lemma_on_grid(0, levels, 0);
        }
        return sign;
    }
    let mut w: u64 = 1;
    let mut i: u32 = e + k;
    proof {
        lemma_double(0);
    }
    while i < 150
        invariant
            125 <= e + k <= i <= 150,
            w == pow2((i - e - k) as nat),
            w <= 0x0200_0000,
            pow2(25) == 0x0200_0000,
        decreases 150 - i,
    {
        proof {
            lemma_double((i - e - k) as nat);
            if i - e - k + 1 < 25 {
                vstd::arithmetic::power2::lemma_pow2_strictly_increases((i - e - k + 1) as nat, 25);
            }
        }
        w = 2 * w;
        i = i + 1;
    }
    let n: u64 = (2 * m as u64 + w) / (2 * w);
    proof {
        lemma_medium(m as nat, e as nat, k as nat, size, levels);
        lemma_double((149 - e - k) as nat);
        lemma_rounded_bound(m as int, w as int);
        assert(n == rounded(m as int, w as int));
    }
    let r = encode(n, 150 - k);
    proof {
        lemma_steps(r, n as nat, k as nat, levels);
        lemma_on_grid(r, levels, n as nat);
    }
    sign + r
}

// ---------- laws ----------

/// The place of a sample on the grid is a number.
proof fn lemma_crushed(a: u32, levels: u32) -> (b: u32)
    requires
        a < INFINITY,
        is_grid(levels),
        levels > 0,
    ensures
        b < INFINITY,
        grid_step(units(a), levels) >= 0,
        units(b) * levels == grid_step(units(a), levels) * one(),
        nearest((grid_step(units(a), levels) * one()) as nat, levels as nat) == b,
        units(a) * levels <= units(LARGEST) ==> units(b) * levels <= units(LARGEST),
{
    let k = choose|k: nat| levels == #[trigger] pow2(k);
    vstd::arithmetic::power2::lemma2_to64();
    if k > 11 {
        vstd::arithmetic::power2::lemma_pow2_strictly_increases(11, k);
    }
    let (m, e) = if a < BINADE {
        (a as nat, 1nat)
    } else {
        ((a % BINADE + BINADE) as nat, (a / BINADE) as nat)
    };
    assert(a % SIGN == a);
    assert(a * pow2(0) == a) by (nonlinear_arith)
        requires
            pow2(0) == 1,
    ;
    let size = units(a);
    assert(size == m * pow2((e - 1) as nat));
    let (b, n) = if e + k >= 150 {
        lemma_large(m, e, k, size, levels);
        (a, m * pow2((e + k - 150) as nat))
    } else if e + k < 125 {
        lemma_small(m, e, k, size, levels);
        assert(units(0) == 0);
        assert(0 * one() == 0 && units(0) * levels == 0) by (nonlinear_arith)
            requires
                units(0) == 0,
        ;
        (0, 0nat)
    } else {
        lemma_medium(m, e, k, size, levels);
        let w = pow2((150 - e - k) as nat);
        lemma_double((149 - e - k) as nat);
        lemma_rounded_bound(m as int, w as int);
        let n = rounded(m as int, w as int) as nat;
        let b = lemma_representable(n, (150 - k) as nat);
        lemma_steps(b, n, k, levels);
        (b, n)
    };
    lemma_on_grid(b, levels, n);
    if n < 2 * BINADE {
        lemma_units_of(254, (2 * BINADE - 1) as nat);
        vstd::arithmetic::power2::lemma_pow2_strictly_increases(149, 252);
        lemma_double(252);
        let h = pow2(252);
        assert(n * one() <= (2 * BINADE - 1) * (2 * h)) by (nonlinear_arith)
            requires
                n < 2 * BINADE,
                one() <= h,
                BINADE == 0x0080_0000,
        ;
    }
    b
}

/// The settings of the bit crusher are grids.
pub proof fn law_settings_are_grids(idx: int)
    requires
        0 <= idx < NBITS,
    ensures
        is_grid(BIT_LEVELS[idx]),
{
    vstd::arithmetic::power2::lemma2_to64();
    assert(pow2(11) == 2048 && pow2(7) == 128 && pow2(5) == 32 && pow2(3) == 8 && pow2(2) == 4);
}

/// Without levels the crusher leaves every sample as it is.
pub proof fn law_crusher_off(x: u32)
    ensures
        crushed(x, 0) == x,
{
}

/// A sample that was crushed is left as it is when it is crushed again.
pub proof fn law_crush_is_stable(x: u32, levels: u32)
    requires
        is_grid(levels),
    ensures
        crushed(crushed(x, levels), levels) == crushed(x, levels),
{
    let a = x % SIGN;
    if levels > 0 && a < INFINITY && units(a) * levels <= units(LARGEST) {
        let b = lemma_crushed(a, levels);
        let n = grid_step(units(a), levels) as nat;
        lemma_on_grid(b, levels, n);
        let r = crushed(x, levels);
        assert(r % SIGN == b && r - b == x - a);
    }
}

/// A crushed sample is within half a step of the grid of what it was, and keeps its sign.
pub proof fn law_crush_is_near(x: u32, levels: u32)
    requires
        is_grid(levels),
        levels > 0,
        x % SIGN < INFINITY,
        units(x) * levels <= units(LARGEST),
    ensures
        crushed(x, levels) % SIGN < INFINITY,
        (crushed(x, levels) < SIGN) == (x < SIGN),
        -one() <= 2 * (units(crushed(x, levels)) * levels - units(x) * levels) <= one(),
{
    let a = x % SIGN;
    assert(units(a) == units(x));
    let b = lemma_crushed(a, levels);
    let r = crushed(x, levels);
    assert(r % SIGN == b);
    assert(units(r) == units(b));
    let (t, o) = ((units(a) * levels) as int, one() as int);
    let n = grid_step(units(a), levels);
    vstd::arithmetic::div_mod::lemma_fundamental_div_mod(2 * t + o, 2 * o);
    vstd::arithmetic::div_mod::lemma_mod_bound(2 * t + o, 2 * o);
    assert((2 * o) * n == 2 * (n * o)) by (nonlinear_arith);
}

/// A crushed sample lies on the grid, and a sample half way between two steps goes to the one further
/// from zero.
pub proof fn law_crush_lands_on_grid(x: u32, levels: u32, n: nat)
    requires
        is_grid(levels),
        levels > 0,
        x % SIGN < INFINITY,
        units(x) * levels <= units(LARGEST),
    ensures
        exists|k: nat| units(crushed(x, levels)) * levels == #[trigger] (k * one()),
        2 * (units(x) * levels) == (2 * n + 1) * one() ==> units(crushed(x, levels)) * levels == (n + 1)
            * one(),
        units(x) * levels == n * one() ==> crushed(x, levels) == x,
{
    let a = x % SIGN;
    assert(units(a) == units(x));
    let b = lemma_crushed(a, levels);
    let r = crushed(x, levels);
    assert(r % SIGN == b);
    assert(units(r) == units(b));
    let k = grid_step(units(a), levels) as nat;
    assert(units(r) * levels == k * one());
    let (t, o) = ((units(a) * levels) as int, one() as int);
    if 2 * t == (2 * n + 1) * o {
        assert(2 * t + o == (n + 1) * (2 * o)) by (nonlinear_arith)
            requires
                2 * t == (2 * n + 1) * o,
        ;
        vstd::arithmetic::div_mod::lemma_fundamental_div_mod_converse(
            2 * t + o,
            2 * o,
            n as int + 1,
            0,
        );
    }
    if units(x) * levels == n * one() {
        lemma_on_grid(a, levels, n);
    }
}

/// What is not finite is left alone, and what has no place on the grid becomes infinite with its sign.
pub proof fn law_crush_of_the_boundless(x: u32, levels: u32)
    requires
        levels > 0,
    ensures
        x % SIGN >= INFINITY ==> crushed(x, levels) == x,
        x % SIGN < INFINITY && units(x) * levels > units(LARGEST) ==> crushed(x, levels) % SIGN
            == INFINITY && (crushed(x, levels) < SIGN) == (x < SIGN),
{
    assert(units(x % SIGN) == units(x));
}

} // verus!
