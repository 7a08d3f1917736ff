//! Iterative radix-2 fast Fourier transform over any element type.
//!
//! The arithmetic of one butterfly is a function argument; what is fixed here is which elements
//! meet in which butterfly, in which order, and where the results go.

use vstd::arithmetic::power2::pow2;
use vstd::prelude::*;

verus! {

broadcast use vstd::arithmetic::power2::lemma_pow2_pos;

// ---------- the transform ----------

/// The elements at even positions.
pub open spec fn evens<C>(x: Seq<C>) -> Seq<C> {
    Seq::new(x.len() / 2, |i: int| x[2 * i])
}

/// The elements at odd positions.
pub open spec fn odds<C>(x: Seq<C>) -> Seq<C> {
    Seq::new(x.len() / 2, |i: int| x[2 * i + 1])
}

/// `y` joins `e` and `o`: entry `k` of the lower half and entry `k` of the upper half are what
/// the butterfly `(e[k], o[k], n, k)` yields, where `n` is the length of `y`.
pub open spec fn joined<C, F: Fn(C, C, usize, usize) -> (C, C)>(
    f: F,
    e: Seq<C>,
    o: Seq<C>,
    y: Seq<C>,
) -> bool {
    let h = (y.len() / 2) as int;
    &&& e.len() == h
    &&& o.len() == h
    &&& forall|k: int|
        0 <= k < h ==> call_ensures(
            f,
            (#[trigger] e[k], o[k], y.len() as usize, k as usize),
            (y[k], y[k + h]),
        )
}

/// `y` is a transform of `x` by decimation in time: the transforms of the even and of the odd
/// positions, joined by butterflies.
pub open spec fn transforms<C, F: Fn(C, C, usize, usize) -> (C, C)>(
    f: F,
    x: Seq<C>,
    y: Seq<C>,
) -> bool
    decreases x.len(),
{
    if x.len() <= 1 {
        y == x
    } else {
        &&& y.len() == x.len()
        &&& exists|e: Seq<C>, o: Seq<C>|
            {
                &&& transforms(f, evens(x), e)
                &&& transforms(f, odds(x), o)
                &&& #[trigger] joined(f, e, o, y)
            }
    }
}

// ---------- bit reversal ----------

/// `k`, written with `bits` binary digits, read backwards.
pub open spec fn reversed(k: nat, bits: nat) -> nat
    decreases bits,
{
    if bits == 0 {
        0
    } else {
        let half = pow2((bits - 1) as nat);
        if k < half {
            2 * reversed(k, (bits - 1) as nat)
        } else {
            2 * reversed((k - half) as nat, (bits - 1) as nat) + 1
        }
    }
}

/// `x` with every element moved to the position whose binary digits are reversed.
pub open spec fn bit_reversed<C>(x: Seq<C>, bits: nat) -> Seq<C> {
    Seq::new(x.len(), |k: int| x[reversed(k as nat, bits) as int])
}

proof fn lemma_pow2_step(bits: nat)
    requires
        bits > 0,
    ensures
        pow2(bits) == 2 * pow2((bits - 1) as nat),
        pow2(0) == 1,
{
    vstd::arithmetic::power2::lemma_pow2_unfold(bits);
    vstd::arithmetic::power2::lemma2_to64();
}

/// Reversing stays within the range of `bits` digits.
proof fn lemma_reversed_bound(k: nat, bits: nat)
    requires
        k < pow2(bits),
    ensures
        reversed(k, bits) < pow2(bits),
    decreases bits,
{
    vstd::arithmetic::power2::lemma2_to64();
    if bits > 0 {
        lemma_pow2_step(bits);
        let half = pow2((bits - 1) as nat);
        if k < half {
            lemma_reversed_bound(k, (bits - 1) as nat);
        } else {
            lemma_reversed_bound((k - half) as nat, (bits - 1) as nat);
        }
    }
}

/// Reversal seen from the lowest digit: it becomes the highest one.
proof fn lemma_reversed_low(t: nat, bits: nat)
    requires
        bits > 0,
        t < pow2((bits - 1) as nat),
    ensures
        reversed(2 * t, bits) == reversed(t, (bits - 1) as nat),
        reversed(2 * t + 1, bits) == pow2((bits - 1) as nat) + reversed(t, (bits - 1) as nat),
    decreases bits,
{
    vstd::arithmetic::power2::lemma2_to64();
    lemma_pow2_step(bits);
    let b1 = (bits - 1) as nat;
    if b1 == 0 {
        assert(t == 0);
        reveal_with_fuel(reversed, 2);
    } else {
        lemma_pow2_step(b1);
        let quarter = pow2((b1 - 1) as nat);
        if t < quarter {
            lemma_reversed_low(t, b1);
        } else {
            lemma_reversed_low((t - quarter) as nat, b1);
            assert(2 * t - 2 * quarter == 2 * (t - quarter));
        }
    }
}

/// Reversing twice gives the number back.
pub proof fn lemma_reversed_involution(k: nat, bits: nat)
    requires
        k < pow2(bits),
    ensures
        reversed(k, bits) < pow2(bits),
        reversed(reversed(k, bits), bits) == k,
    decreases bits,
{
    vstd::arithmetic::power2::lemma2_to64();
    lemma_reversed_bound(k, bits);
    if bits > 0 {
        lemma_pow2_step(bits);
        let b1 = (bits - 1) as nat;
        let half = pow2(b1);
        if k < half {
            lemma_reversed_involution(k, b1);
            lemma_reversed_low(reversed(k, b1), bits);
        } else {
            lemma_reversed_involution((k - half) as nat, b1);
            lemma_reversed_low(reversed((k - half) as nat, b1), bits);
        }
    }
}

/// Reordering by bit reversal twice restores the order.
pub proof fn law_bit_reversal_undoes_itself<C>(x: Seq<C>, bits: nat)
    requires
        x.len() == pow2(bits),
    ensures
        bit_reversed(bit_reversed(x, bits), bits) =~= x,
{
    assert forall|k: int| 0 <= k < x.len() implies bit_reversed(bit_reversed(x, bits), bits)[k]
        == x[k] by {
        lemma_reversed_involution(k as nat, bits);
    }
}

/// What the reversed counter does to count up by one: clear set digits from `bit` downwards, set
/// the first clear one.
pub open spec fn carried(j: nat, bit: nat) -> nat
    decreases bit,
{
    if bit == 0 {
        j
    } else if j >= bit {
        carried((j - bit) as nat, bit / 2)
    } else {
        j + bit
    }
}

/// Counting up in reversed digits.
proof fn lemma_carried_counts(i: nat, bits: nat)
    requires
        bits > 0,
        i + 1 < pow2(bits),
    ensures
        carried(reversed(i, bits), pow2((bits - 1) as nat)) == reversed(i + 1, bits),
    decreases bits,
{
    vstd::arithmetic::power2::lemma2_to64();
    lemma_pow2_step(bits);
    let b1 = (bits - 1) as nat;
    let t = i / 2;
    assert(t < pow2(b1));
    lemma_reversed_low(t, bits);
    lemma_reversed_bound(t, b1);
    if i % 2 == 0 {
        assert(i == 2 * t);
    } else {
        assert(i == 2 * t + 1);
        assert(t + 1 < pow2(b1));
        if b1 > 0 {
            lemma_pow2_step(b1);
            lemma_carried_counts(t, b1);
            lemma_reversed_low(t + 1, bits);
            assert(i + 1 == 2 * (t + 1));
        }
    }
}

// ---------- in place ----------

/// `n` is a power of two.
pub open spec fn is_power_of_two(n: int) -> bool {
    exists|bits: nat| n == #[trigger] pow2(bits)
}

/// Counts `j` up by one in reversed binary digits, the highest of which is worth `bit`.
fn carry(j: usize, bit: usize) -> (r: usize)
    requires
        carried(j as nat, bit as nat) <= usize::MAX,
    ensures
        r == carried(j as nat, bit as nat),
{
    let mut j = j;
    let mut bit = bit;
    let ghost goal = carried(j as nat, bit as nat);
    while bit != 0 && j >= bit
        invariant
            goal == carried(j as nat, bit as nat),
        decreases bit,
    {
        j = j - bit;
        bit = bit / 2;
    }
    j + bit
}

/// The order after all pairs that start below `i` have been exchanged.
spec fn partly_reversed<C>(x: Seq<C>, bits: nat, i: int) -> Seq<C> {
    Seq::new(
        x.len(),
        |k: int|
            if k < i || reversed(k as nat, bits) < i {
                x[reversed(k as nat, bits) as int]
            } else {
                x[k]
            },
    )
}

/// Moves every element to the position whose binary digits are reversed.
pub fn bit_reverse<C: Copy>(data: &mut Vec<C>)
    requires
        is_power_of_two(old(data)@.len() as int),
    ensures
        final(data)@.len() == old(data)@.len(),
        forall|bits: nat|
            old(data)@.len() == #[trigger] pow2(bits) ==> final(data)@ == bit_reversed(
                old(data)@,
                bits,
            ),
{
    let n = data.len();
    let ghost x = data@;
    let ghost bits = choose|bits: nat| n == #[trigger] pow2(bits);
    proof {
        vstd::arithmetic::power2::lemma2_to64();
        if bits > 0 {
            lemma_pow2_step(bits);
        }
        assert(reversed(0, bits) == 0) by {
            lemma_reversed_zero(bits);
        }
        assert forall|k: int| 0 <= k < n implies data@[k] == partly_reversed(x, bits, 1)[k] by {
            lemma_reversed_involution(k as nat, bits);
        }
    }
    let mut j: usize = 0;
    let mut i: usize = 1;
    while i < n
        invariant
            n == data@.len(),
            n == x.len(),
            n == pow2(bits),
            1 <= i,
            i <= n,
            j == reversed((i - 1) as nat, bits),
            data@ =~= partly_reversed(x, bits, i as int),
        decreases n - i,
    {
        proof {
            vstd::arithmetic::power2::lemma2_to64();
            lemma_pow2_step(bits);
            lemma_carried_counts((i - 1) as nat, bits);
            lemma_reversed_involution(i as nat, bits);
        }
        j = carry(j, n / 2);
        if i < j {
            let a = data[i];
            let b = data[j];
            data.set(i, b);
            data.set(j, a);
        }
        proof {
            assert forall|k: int| 0 <= k < n implies data@[k] == partly_reversed(
                x,
                bits,
                i + 1,
            )[k] by {
                lemma_reversed_involution(k as nat, bits);
            }
        }
        i = i + 1;
    }
    proof {
        assert(data@ =~= bit_reversed(x, bits));
        assert forall|other: nat| x.len() == #[trigger] pow2(other) implies data@ == bit_reversed(
            x,
            other,
        ) by {
            lemma_pow2_injective(bits, other);
        }
    }
}

proof fn lemma_reversed_zero(bits: nat)
    ensures
        reversed(0, bits) == 0,
    decreases bits,
{
    if bits > 0 {
        lemma_reversed_zero((bits - 1) as nat);
    }
}

proof fn lemma_pow2_injective(a: nat, b: nat)
    requires
        pow2(a) == pow2(b),
    ensures
        a == b,
{
    if a < b {
        vstd::arithmetic::power2::lemma_pow2_strictly_increases(a, b);
    } else if b < a {
        vstd::arithmetic::power2::lemma_pow2_strictly_increases(b, a);
    }
}

// ---------- butterflies ----------

/// `y` is a transform of the elements whose bit-reversed order is `p`: the halves of `p` are the
/// even and the odd positions, again in bit-reversed order.
spec fn merges<C, F: Fn(C, C, usize, usize) -> (C, C)>(f: F, p: Seq<C>, y: Seq<C>) -> bool
    decreases p.len(),
{
    if p.len() <= 1 {
        y == p
    } else {
        let h = (p.len() / 2) as int;
        &&& y.len() == p.len()
        &&& exists|e: Seq<C>, o: Seq<C>|
            {
                &&& merges(f, p.subrange(0, h), e)
                &&& merges(f, p.subrange(h, p.len() as int), o)
                &&& #[trigger] joined(f, e, o, y)
            }
    }
}

proof fn lemma_merges_transforms<C, F: Fn(C, C, usize, usize) -> (C, C)>(
    f: F,
    x: Seq<C>,
    y: Seq<C>,
    bits: nat,
)
    requires
        x.len() == pow2(bits),
        merges(f, bit_reversed(x, bits), y),
    ensures
        transforms(f, x, y),
    decreases bits,
{
    vstd::arithmetic::power2::lemma2_to64();
    let p = bit_reversed(x, bits);
    if bits == 0 {
        assert(reversed(0, 0) == 0);
        assert(p =~= x);
    } else {
        lemma_pow2_step(bits);
        let b1 = (bits - 1) as nat;
        let h = (p.len() / 2) as int;
        assert(h == pow2(b1));
        assert forall|k: int| 0 <= k < h implies p.subrange(0, h)[k] == bit_reversed(
            evens(x),
            b1,
        )[k] by {
            lemma_reversed_bound(k as nat, b1);
        }
        assert(p.subrange(0, h) =~= bit_reversed(evens(x), b1));
        assert forall|k: int| 0 <= k < h implies p.subrange(h, p.len() as int)[k] == bit_reversed(
            odds(x),
            b1,
        )[k] by {
            lemma_reversed_bound(k as nat, b1);
            assert((k + h - h) as nat == k as nat);
        }
        assert(p.subrange(h, p.len() as int) =~= bit_reversed(odds(x), b1));
        let (e, o) = choose|e: Seq<C>, o: Seq<C>|
            {
                &&& merges(f, p.subrange(0, h), e)
                &&& merges(f, p.subrange(h, p.len() as int), o)
                &&& #[trigger] joined(f, e, o, y)
            };
        lemma_merges_transforms(f, evens(x), e, b1);
        lemma_merges_transforms(f, odds(x), o, b1);
    }
}

/// Joins the two neighbouring blocks of `half` elements that begin at `start`.
fn join_block<C: Copy, F: Fn(C, C, usize, usize) -> (C, C)>(
    data: &mut Vec<C>,
    start: usize,
    half: usize,
    f: &F,
)
    requires
        half >= 1,
        start + 2 * half <= old(data)@.len(),
        forall|u: C, s: C, len: usize, k: usize|
            len == 2 * half && k < half ==> #[trigger] call_requires(*f, (u, s, len, k)),
    ensures
        final(data)@.len() == old(data)@.len(),
        forall|q: int|
            0 <= q < old(data)@.len() && !(start <= q < start + 2 * half)
                ==> final(data)@[q] == #[trigger] old(data)@[q],
        joined(
            *f,
            old(data)@.subrange(start as int, start + half),
            old(data)@.subrange(start + half, start + 2 * half),
            final(data)@.subrange(start as int, start + 2 * half),
        ),
{
    let ghost before = data@;
    let n = data.len();
    let len: usize = 2 * half;
    let mut k: usize = 0;
    while k < half
        invariant
            len == 2 * half,
            k <= half,
            half >= 1,
            start + 2 * half <= n,
            n == data@.len(),
            n == before.len(),
            forall|u: C, s: C, len: usize, k: usize|
                len == 2 * half && k < half ==> #[trigger] call_requires(*f, (u, s, len, k)),
            forall|q: int|
                0 <= q < data@.len() && !(start <= q < start + k) && !(start + half <= q < start
                    + half + k) ==> #[trigger] data@[q] == before[q],
            forall|q: int|
                0 <= q < k ==> call_ensures(
                    *f,
                    (
                        #[trigger] before[start + q],
                        before[start + half + q],
                        len,
                        q as usize,
                    ),
                    (data@[start + q], data@[start + half + q]),
                ),
        decreases half - k,
    {
        let u = data[start + k];
        let s = data[start + k + half];
        let (a, b) = f(u, s, len, k);
        data.set(start + k, a);
        data.set(start + k + half, b);
        k = k + 1;
    }
    proof {
        let e = before.subrange(start as int, start + half);
        let o = before.subrange(start + half, start + 2 * half);
        let y = data@.subrange(start as int, start + 2 * half);
        assert forall|q: int| 0 <= q < half implies call_ensures(
            *f,
            (#[trigger] e[q], o[q], y.len() as usize, q as usize),
            (y[q], y[q + half]),
        ) by {
            assert(e[q] == before[start + q]);
            assert(o[q] == before[start + half + q]);
            assert(y[q + half] == data@[start + half + q]);
        }
    }
}

/// Block `b` of `s`, in blocks of `len` elements.
spec fn block<C>(s: Seq<C>, b: int, len: int) -> Seq<C> {
    s.subrange(b * len, b * len + len)
}

/// Blocks `from` up to `to` of `y`, each of `len` elements, hold transforms of the same blocks
/// of `p`.
spec fn blocks_merged<C, F: Fn(C, C, usize, usize) -> (C, C)>(
    f: F,
    p: Seq<C>,
    y: Seq<C>,
    len: int,
    from: int,
    to: int,
) -> bool {
    forall|b: int| from <= b < to ==> merges(f, block(p, b, len), #[trigger] block(y, b, len))
}

/// Two merged neighbours, joined, are merged.
proof fn lemma_join_merges<C, F: Fn(C, C, usize, usize) -> (C, C)>(
    f: F,
    p: Seq<C>,
    before: Seq<C>,
    after: Seq<C>,
    half: int,
    b: int,
)
    requires
        half >= 1,
        0 <= b,
        b * (2 * half) + 2 * half <= p.len(),
        p.len() == before.len(),
        p.len() == after.len(),
        merges(f, block(p, 2 * b, half), block(before, 2 * b, half)),
        merges(f, block(p, 2 * b + 1, half), block(before, 2 * b + 1, half)),
        joined(
            f,
            block(before, 2 * b, half),
            block(before, 2 * b + 1, half),
            block(after, b, 2 * half),
        ),
    ensures
        merges(f, block(p, b, 2 * half), block(after, b, 2 * half)),
{
    let len = 2 * half;
    assert((2 * b) * half == b * len) by (nonlinear_arith)
        requires
            len == 2 * half,
    ;
    assert((2 * b + 1) * half == b * len + half) by (nonlinear_arith)
        requires
            len == 2 * half,
    ;
    assert(b * len >= 0) by (nonlinear_arith)
        requires
            b >= 0,
            len >= 0,
    ;
    let bp = block(p, b, len);
    assert(bp.len() == len);
    assert(bp.subrange(0, half) =~= block(p, 2 * b, half));
    assert(bp.subrange(half, len) =~= block(p, 2 * b + 1, half));
}

/// One pass over the data: joins neighbouring blocks of `half` elements into blocks twice as
/// long.
fn join_stage<C: Copy, F: Fn(C, C, usize, usize) -> (C, C)>(
    data: &mut Vec<C>,
    half: usize,
    f: &F,
    Ghost(p): Ghost<Seq<C>>,
    Ghost(count): Ghost<int>,
)
    requires
        half >= 1,
        count >= 0,
        old(data)@.len() == count * (2 * half),
        p.len() == old(data)@.len(),
        blocks_merged(*f, p, old(data)@, half as int, 0, 2 * count),
        forall|u: C, s: C, len: usize, k: usize|
            len == 2 * half && k < half ==> #[trigger] call_requires(*f, (u, s, len, k)),
    ensures
        final(data)@.len() == old(data)@.len(),
        blocks_merged(*f, p, final(data)@, 2 * half, 0, count),
{
    let n = data.len();
    let mut i: usize = 0;
    let ghost mut b: int = 0;
    while i < n
        invariant
            half >= 1,
            n == data@.len(),
            n == p.len(),
            n == count * (2 * half),
            0 <= b <= count,
            i == b * (2 * half),
            blocks_merged(*f, p, data@, 2 * half, 0, b),
            blocks_merged(*f, p, data@, half as int, 2 * b, 2 * count),
            forall|u: C, s: C, len: usize, k: usize|
                len == 2 * half && k < half ==> #[trigger] call_requires(*f, (u, s, len, k)),
        decreases n - i,
    {
        let ghost before = data@;
        let ghost len = 2 * half as int;
        proof {
            assert(b < count) by (nonlinear_arith)
                requires
                    b * len < count * len,
                    len >= 2,
            ;
            assert(b * len + len <= count * len) by (nonlinear_arith)
                requires
                    b < count,
                    len >= 2,
            ;
        }
        join_block(data, i, half, f);
        proof {
            assert((2 * b) * half == b * len) by (nonlinear_arith)
                requires
                    len == 2 * half,
            ;
            assert((2 * b + 1) * half == b * len + half) by (nonlinear_arith)
                requires
                    len == 2 * half,
            ;
            assert((b + 1) * len == b * len + len) by (nonlinear_arith);
            lemma_join_merges(*f, p, before, data@, half as int, b);
            assert forall|c: int| 0 <= c < b + 1 implies merges(
                *f,
                block(p, c, len),
                #[trigger] block(data@, c, len),
            ) by {
                if c < b {
                    assert(0 <= c * len && c * len + len <= b * len) by (nonlinear_arith)
                        requires
                            0 <= c < b,
                            len >= 2,
                    ;
                    assert(block(data@, c, len) =~= block(before, c, len));
                }
            }
            assert forall|c: int| 2 * (b + 1) <= c < 2 * count implies merges(
                *f,
                block(p, c, half as int),
                #[trigger] block(data@, c, half as int),
            ) by {
                assert(b * len + len <= c * half && c * half + half <= count * len) by (nonlinear_arith)
                    requires
                        2 * (b + 1) <= c < 2 * count,
                        half >= 1,
                        len == 2 * half,
                ;
                assert(block(data@, c, half as int) =~= block(before, c, half as int));
            }
            b = b + 1;
        }
        i = i + 2 * half;
    }
    proof {
        let len = 2 * half as int;
        assert(b == count) by (nonlinear_arith)
            requires
                b <= count,
                b * len >= count * len,
                len >= 2,
        ;
    }
}

/// Transforms `data` in place. `f` computes one butterfly: from an element of the lower block, the
/// one of the upper block it meets, the length of the joined block and the position in the lower
/// block, to the two elements that replace them.
pub fn fft_inplace<C: Copy, F: Fn(C, C, usize, usize) -> (C, C)>(data: &mut Vec<C>, f: &F)
    requires
        old(data)@.len() == 0 || is_power_of_two(old(data)@.len() as int),
        forall|u: C, s: C, len: usize, k: usize|
            k < len / 2 && len <= old(data)@.len() ==> #[trigger] call_requires(*f, (u, s, len, k)),
    ensures
        transforms(*f, old(data)@, final(data)@),
{
    let n = data.len();
    if n == 0 {
        return;
    }
    let ghost x = data@;
    let ghost bits = choose|bits: nat| n == #[trigger] pow2(bits);
    bit_reverse(data);
    let ghost p = bit_reversed(x, bits);
    let mut half: usize = 1;
    let ghost mut level: nat = 0;
    proof {
        vstd::arithmetic::power2::lemma2_to64();
        assert forall|b: int| 0 <= b < n implies merges(
            *f,
            block(p, b, 1),
            #[trigger] block(data@, b, 1),
        ) by {
            assert(block(p, b, 1) =~= block(data@, b, 1));
        }
    }
    while half < n
        invariant
            n == data@.len(),
            n == p.len(),
            n == pow2(bits),
            level <= bits,
            half == pow2(level),
            blocks_merged(*f, p, data@, half as int, 0, pow2((bits - level) as nat) as int),
            forall|u: C, s: C, len: usize, k: usize|
                k < len / 2 && len <= n ==> #[trigger] call_requires(*f, (u, s, len, k)),
        decreases n - half,
    {
        let ghost count = pow2((bits - level - 1) as nat) as int;
        proof {
            if level == bits {
                assert(false);
            }
            lemma_pow2_step((bits - level) as nat);
            lemma_pow2_step(level + 1);
            vstd::arithmetic::power2::lemma_pow2_adds((bits - level - 1) as nat, level + 1);
            assert(count * (2 * half) == n);
            assert(2 * half <= n) by (nonlinear_arith)
                requires
                    count >= 1,
                    half >= 1,
                    count * (2 * half) == n,
            ;
        }
        join_stage(data, half, f, Ghost(p), Ghost(count));
        half = half * 2;
        proof {
            level = level + 1;
        }
    }
    proof {
        if level < bits {
            vstd::arithmetic::power2::lemma_pow2_strictly_increases(level, bits);
        }
        vstd::arithmetic::power2::lemma2_to64();
        assert(block(p, 0, n as int) =~= p);
        assert(block(data@, 0, n as int) =~= data@);
        lemma_merges_transforms(*f, x, data@, bits);
    }
}

/// `f` gives the same whenever it is called with the same.
pub open spec fn repeats<C, F: Fn(C, C, usize, usize) -> (C, C)>(f: F) -> bool {
    forall|u: C, s: C, len: usize, k: usize, a: (C, C), b: (C, C)| #[trigger]
        call_ensures(f, (u, s, len, k), a) && #[trigger] call_ensures(f, (u, s, len, k), b) ==> a
            == b
}

/// With a butterfly that always gives the same, there is only one transform.
pub proof fn law_transform_is_unique<C, F: Fn(C, C, usize, usize) -> (C, C)>(
    f: F,
    x: Seq<C>,
    y: Seq<C>,
    z: Seq<C>,
)
    requires
        repeats(f),
        x.len() == 0 || is_power_of_two(x.len() as int),
        transforms(f, x, y),
        transforms(f, x, z),
    ensures
        y == z,
{
    if x.len() != 0 {
        let bits = choose|bits: nat| x.len() == #[trigger] pow2(bits);
        lemma_transform_is_unique(f, x, y, z, bits);
    }
}

proof fn lemma_transform_is_unique<C, F: Fn(C, C, usize, usize) -> (C, C)>(
    f: F,
    x: Seq<C>,
    y: Seq<C>,
    z: Seq<C>,
    bits: nat,
)
    requires
        repeats(f),
        x.len() == pow2(bits),
        transforms(f, x, y),
        transforms(f, x, z),
    ensures
        y == z,
    decreases bits,
{
    vstd::arithmetic::power2::lemma2_to64();
    if bits > 0 {
        lemma_pow2_step(bits);
        let b1 = (bits - 1) as nat;
        let h = pow2(b1) as int;
        let (e, o) = choose|e: Seq<C>, o: Seq<C>|
            {
                &&& transforms(f, evens(x), e)
                &&& transforms(f, odds(x), o)
                &&& #[trigger] joined(f, e, o, y)
            };
        let (p, q) = choose|p: Seq<C>, q: Seq<C>|
            {
                &&& transforms(f, evens(x), p)
                &&& transforms(f, odds(x), q)
                &&& #[trigger] joined(f, p, q, z)
            };
        lemma_transform_is_unique(f, evens(x), e, p, b1);
        lemma_transform_is_unique(f, odds(x), o, q, b1);
        assert forall|i: int| 0 <= i < x.len() implies y[i] == z[i] by {
            let k = if i < h {
                i
            } else {
                i - h
            };
            let n = x.len() as usize;
            assert(call_ensures(f, (e[k], o[k], n, k as usize), (y[k], y[k + h])));
            assert(call_ensures(f, (p[k], q[k], n, k as usize), (z[k], z[k + h])));
        }
        assert(y =~= z);
    }
}

} // verus!
