//! The controls of the synth: nine parameters for each of three drums, and three for the whole.
//!
//! A control is known by its number: drum `d`, parameter `p` has number `9 * d + p`; the three
//! controls of the whole follow, from 27 on.

use vstd::prelude::*;
use vstd::string::StringExecFns;

use crate::arith::{
    divide, lemma_product_bound, lemma_product_ends, lemma_product_keeps_order, lemma_ratio_times,
    law_share_is_near, lemma_round_keeps_order, lemma_round_zero, lemma_whole_exact, one, product,
    ratio, round, round_of, times, units, whole, BINADE,
};
use crate::single::{clamp_unit, clamped, INFINITY, ONE, SIGN, ZERO};

verus! {

/// Number of drums.
pub const NDRUMS: usize = 3;

/// Number of parameters of a drum.
pub const NP: usize = 9;

/// Number of the first control that belongs to no drum.
pub const FIRST_MASTER: usize = 27;

/// Number of rows that can be selected: the parameters of a drum, then the master controls.
pub const NROWS: usize = 12;

/// Number of the drive control.
pub const DRIVE: usize = 27;

/// Number of the control of the bit crusher, the only one that moves in steps.
pub const BITS: usize = 28;

/// Number of the volume control.
pub const VOLUME: usize = 29;

/// Number of settings of the bit crusher.
pub const NBITS: usize = 6;

pub const DRUMS: [&'static str; 3] = ["KICK", "SNARE", "HIHAT"];

pub const PARAMS: [&'static str; 9] = [
    "Tune",
    "Ratio",
    "FM",
    "FMDec",
    "PEnv",
    "PDec",
    "Decay",
    "Snap",
    "Tone",
];

pub const MASTER: [&'static str; 3] = ["Drive", "Bits", "Volume"];

/// Names of the settings of the bit crusher.
pub const BIT_NAMES: [&'static str; 6] = ["off", "12-bit", "8-bit", "6-bit", "4-bit", "3-bit"];

/// Quantization levels of the settings of the bit crusher; zero leaves the sound as it is.
pub const BIT_LEVELS: [u32; 6] = [0, 2048, 128, 32, 8, 4];

/// The bits of 0.7, the volume at the start.
pub const START_VOLUME: u32 = 0x3F33_3333;

/// The name of a control.
pub open spec fn name_of(id: int) -> Seq<char> {
    if id < FIRST_MASTER {
        DRUMS[id / (NP as int)]@ + " "@ + PARAMS[id % (NP as int)]@
    } else {
        MASTER[id - FIRST_MASTER]@
    }
}

/// The name of a control.
pub fn control_name(id: usize) -> (r: String)
    requires
        id < crate::ccmap::CONTROLS,
    ensures
        r@ == name_of(id as int),
{
    if id < FIRST_MASTER {
        let mut s = DRUMS[id / NP].to_string();
        s.append(" ");
        s.append(PARAMS[id % NP]);
        s
    } else {
        MASTER[id - FIRST_MASTER].to_string()
    }
}

/// The setting of the bit crusher that a level stands for: the nearest one when the levels from 0
/// to 1 are spread over all settings. What is no number stands for the first setting.
pub open spec fn bits_of_level(v: u32) -> int {
    let n = clamped(v);
    if n <= ONE {
        round_of(product(n, whole((NBITS - 1) as nat)))
    } else {
        0
    }
}

/// The level of a setting of the bit crusher.
pub open spec fn level_of_bits(idx: int) -> u32 {
    ratio(idx, NBITS - 1)
}

/// The setting of the bit crusher for a level.
pub fn bits_for_level(v: u32) -> (idx: usize)
    ensures
        idx == bits_of_level(v),
        idx < NBITS,
{
    let n = clamp_unit(v);
    proof {
        lemma_bits_of_level(v);
    }
    if n <= ONE {
        round(times(n, NBITS as u64 - 1))
    } else {
        0
    }
}

/// The level of a setting of the bit crusher.
pub fn level_for_bits(idx: usize) -> (v: u32)
    requires
        idx < NBITS,
    ensures
        v == level_of_bits(idx as int),
{
    divide(idx as u16, NBITS as u16 - 1)
}

/// Every level stands for a setting.
pub proof fn lemma_bits_of_level(v: u32)
    ensures
        0 <= bits_of_level(v) < NBITS,
{
    let n = clamped(v);
    if n <= ONE {
        vstd::arithmetic::power2::lemma2_to64();
        lemma_product_bound(n, 5);
        lemma_whole_exact(5);
        lemma_round_keeps_order(product(n, whole(5)), whole(5));
        lemma_round_keeps_order(0, product(n, whole(5)));
        lemma_round_zero();
    }
}

// ---------- laws ----------

/// The settings of the bit crusher are spread over the whole range of levels, in order.
pub proof fn law_levels_cover_bits(a: u32, b: u32)
    requires
        a <= b <= ONE,
    ensures
        bits_of_level(ZERO) == 0,
        bits_of_level(ONE) == NBITS - 1,
        0 <= bits_of_level(a) <= bits_of_level(b) < NBITS,
{
    vstd::arithmetic::power2::lemma2_to64();
    lemma_bits_of_level(a);
    lemma_bits_of_level(b);
    lemma_whole_exact(5);
    lemma_product_bound(b, 5);
    lemma_product_keeps_order(a, b, 5);
    lemma_round_keeps_order(product(a, whole(5)), product(b, whole(5)));
    lemma_product_ends(5);
    lemma_round_zero();
}

/// The level of a setting of the bit crusher stands for that setting.
pub proof fn law_bits_read_back(idx: int)
    requires
        0 <= idx < NBITS,
    ensures
        bits_of_level(level_of_bits(idx)) == idx,
{
    lemma_ratio_times(idx as nat, 5);
}

/// The first letter of the name of a control tells the drum, or the master control.
proof fn lemma_first_letters(id: int)
    requires
        0 <= id < crate::ccmap::CONTROLS,
    ensures
        name_of(id).len() > 0,
        id < 9 ==> name_of(id)[0] == 'K',
        9 <= id < 18 ==> name_of(id)[0] == 'S',
        18 <= id < 27 ==> name_of(id)[0] == 'H',
        id == DRIVE ==> name_of(id)[0] == 'D',
        id == BITS ==> name_of(id)[0] == 'B',
        id == VOLUME ==> name_of(id)[0] == 'V',
{
    reveal_strlit("KICK");
    reveal_strlit("SNARE");
    reveal_strlit("HIHAT");
    reveal_strlit("Drive");
    reveal_strlit("Bits");
    reveal_strlit("Volume");
}

/// No two parameters have the same name.
proof fn lemma_params_differ(a: int, b: int)
    requires
        0 <= a < b < NP,
    ensures
        PARAMS[a]@ != PARAMS[b]@,
{
    reveal_strlit("Tune");
    reveal_strlit("Ratio");
    reveal_strlit("FM");
    reveal_strlit("FMDec");
    reveal_strlit("PEnv");
    reveal_strlit("PDec");
    reveal_strlit("Decay");
    reveal_strlit("Snap");
    reveal_strlit("Tone");
    let (s, t) = (PARAMS[a]@, PARAMS[b]@);
    assert(s.len() != t.len() || s[0] != t[0] || s[1] != t[1]);
}

/// No two controls have the same name.
pub proof fn law_names_differ(a: int, b: int)
    requires
        0 <= a < b < crate::ccmap::CONTROLS,
    ensures
        name_of(a) != name_of(b),
{
    lemma_first_letters(a);
    lemma_first_letters(b);
    if b < FIRST_MASTER && a / (NP as int) == b / (NP as int) {
        lemma_params_differ(a % (NP as int), b % (NP as int));
        let front = DRUMS[a / (NP as int)]@ + " "@;
        let (s, t) = (PARAMS[a % (NP as int)]@, PARAMS[b % (NP as int)]@);
        assert((front + s).skip(front.len() as int) =~= s);
        assert((front + t).skip(front.len() as int) =~= t);
    }
}

/// A level stands for the nearest setting of the bit crusher.
pub proof fn law_bits_are_near(v: u32)
    requires
        v <= ONE,
    ensures
        ({
            let d = bits_of_level(v) * one() - 5 * units(v);
            let slack = (BINADE + 5) * one();
            -slack <= 2 * d * BINADE <= slack
        }),
{
    law_share_is_near(v, 5);
}

/// Levels beyond the ends of the range stand for the first and the last setting.
pub proof fn law_bits_beyond_the_range(v: u32)
    ensures
        SIGN <= v <= SIGN + INFINITY ==> bits_of_level(v) == 0,
        ONE <= v <= INFINITY ==> bits_of_level(v) == NBITS - 1,
        !crate::single::is_number(v) ==> bits_of_level(v) == 0,
{
    law_levels_cover_bits(ZERO, ONE);
    crate::single::law_clamp_moves_to_the_ends(v);
}

/// A control is named after its drum and its parameter, or after itself.
pub proof fn law_names_of_controls(drum: int, param: int, k: int)
    requires
        0 <= drum < 3,
        0 <= param < 9,
        0 <= k < 3,
    ensures
        name_of(9 * drum + param) == DRUMS[drum]@ + " "@ + PARAMS[param]@,
        name_of(27 + k) == MASTER[k]@,
{
    let id = 9 * drum + param;
    assert(id / 9 == drum && id % 9 == param);
}

} // verus!
