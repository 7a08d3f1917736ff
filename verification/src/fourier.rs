//! What the fast Fourier transform is for: the Fourier sums, and the way back.
//!
//! The laws hold over every ring with a root of unity: over the complex numbers, where the root
//! stands for a turn by one part of the circle, as well as over remainders of integers.

use vstd::arithmetic::power2::pow2;
use vstd::prelude::*;

use crate::fft::{evens, is_power_of_two, joined, odds, transforms};
use crate::ring::{complex, Ring};

verus! {

broadcast use vstd::arithmetic::power2::lemma_pow2_pos;

/// `w` is a root of unity of order `n`, with minus one half way round.
pub open spec fn is_root<C>(r: Ring<C>, w: C, n: nat) -> bool {
    n <= 1 || r.pow(w, n / 2) == r.neg(r.one)
}

/// The two results of a butterfly: `u` plus and minus `s` turned by `k` of `len` parts of the
/// circle, where `w` turns by one of `n` parts.
pub open spec fn turned<C>(r: Ring<C>, w: C, n: nat, u: C, s: C, len: nat, k: nat) -> (C, C) {
    let t = r.prod(r.pow(w, k * (n / len)), s);
    (r.sum(u, t), r.sum(u, r.neg(t)))
}

/// `f` computes the butterflies of a transform of `n` elements.
pub open spec fn is_butterfly<C, F: Fn(C, C, usize, usize) -> (C, C)>(
    r: Ring<C>,
    w: C,
    n: nat,
    f: F,
) -> bool {
    forall|u: C, s: C, len: usize, k: usize, out: (C, C)| #[trigger]
        call_ensures(f, (u, s, len, k), out) && k < len / 2 && len <= n ==> out == turned(
            r,
            w,
            n,
            u,
            s,
            len as nat,
            k as nat,
        )
}

/// The terms of a Fourier sum: element `j` of `x`, turned `j * k` times by `w` to the power of `s`.
pub open spec fn terms<C>(r: Ring<C>, w: C, s: nat, x: Seq<C>, k: nat) -> Seq<C> {
    Seq::new(x.len(), |j: int| r.prod(r.pow(w, s * (j as nat * k)), x[j]))
}

/// Number `k` of the Fourier sums of `x`: the sum of all elements, element `j` turned `j * k` times
/// by `w`.
pub open spec fn fourier_sum<C>(r: Ring<C>, w: C, x: Seq<C>, k: nat) -> C {
    r.total(Seq::new(x.len(), |j: int| r.prod(r.pow(w, j as nat * k), x[j])))
}

// ---------- powers of a root ----------

/// A whole turn changes nothing, and half a turn changes the sign.
proof fn lemma_turns<C>(r: Ring<C>, w: C, n: nat, a: nat, j: nat)
    requires
        r.lawful(),
        n >= 2,
        n % 2 == 0,
        r.pow(w, n / 2) == r.neg(r.one),
    ensures
        r.pow(w, a + n * j) == r.pow(w, a),
        r.pow(w, a + n / 2) == r.neg(r.pow(w, a)),
    decreases j,
{
    let h = n / 2;
    r.lemma_pow_adds(w, a, h);
    r.lemma_signs(r.pow(w, a), r.one);
    r.lemma_one(r.pow(w, a));
    if j == 0 {
        assert(n * j == 0) by (nonlinear_arith)
            requires
                j == 0,
        ;
    } else {
        let i = (j - 1) as nat;
        lemma_turns(r, w, n, a, i);
        assert(a + n * j == a + n * i + h + h) by (nonlinear_arith)
            requires
                j == i + 1,
                n == h + h,
        ;
        let b = a + n * i;
        r.lemma_pow_adds(w, b, h);
        r.lemma_pow_adds(w, b + h, h);
        r.lemma_signs(r.pow(w, b), r.one);
        r.lemma_one(r.pow(w, b));
        r.lemma_signs(r.neg(r.pow(w, b)), r.one);
        r.lemma_one(r.neg(r.pow(w, b)));
    }
}

/// An even number of half turns changes nothing, an odd one the sign.
proof fn lemma_half_turns<C>(r: Ring<C>, w: C, n: nat, a: nat, j: nat)
    requires
        r.lawful(),
        n >= 2,
        n % 2 == 0,
        r.pow(w, n / 2) == r.neg(r.one),
    ensures
        j % 2 == 0 ==> r.pow(w, a + j * (n / 2)) == r.pow(w, a),
        j % 2 == 1 ==> r.pow(w, a + j * (n / 2)) == r.neg(r.pow(w, a)),
{
    let (h, i) = (n / 2, j / 2);
    if j % 2 == 0 {
        assert(j * h == n * i) by (nonlinear_arith)
            requires
                j == 2 * i,
                n == 2 * h,
        ;
        lemma_turns(r, w, n, a, i);
    } else {
        assert(j * h == n * i + h) by (nonlinear_arith)
            requires
                j == 2 * i + 1,
                n == 2 * h,
        ;
        lemma_turns(r, w, n, a, i);
        lemma_turns(r, w, n, a + n * i, 0);
    }
}

// ---------- totals by halves ----------

/// A total is that of the even positions and that of the odd ones.
proof fn lemma_total_parity<C>(r: Ring<C>, t: Seq<C>, h: nat)
    requires
        r.lawful(),
        t.len() == 2 * h,
    ensures
        r.total(t) == r.sum(r.total(evens(t)), r.total(odds(t))),
    decreases h,
{
    if h == 0 {
        r.lemma_zero(r.zero);
        assert(evens(t) =~= Seq::<C>::empty());
        assert(odds(t) =~= Seq::<C>::empty());
    } else {
        let u = t.drop_last().drop_last();
        lemma_total_parity(r, u, (h - 1) as nat);
        assert(evens(t).drop_last() =~= evens(u));
        assert(odds(t).drop_last() =~= odds(u));
        let (e, o) = (r.total(evens(u)), r.total(odds(u)));
        let (p, q) = (t[2 * h - 2], t[2 * h - 1]);
        reveal_with_fuel(Ring::total, 3);
        assert(t.drop_last().last() == p);
        assert(r.total(t) == r.sum(r.sum(r.sum(e, o), p), q));
        r.lemma_assoc(r.sum(e, o), p, q);
        r.lemma_middle(e, o, p, q);
    }
}

// ---------- there ----------

/// The lower and the upper half of a transform, in terms of those of the even and odd positions.
proof fn lemma_split<C>(r: Ring<C>, w: C, n: nat, s: nat, x: Seq<C>, h: nat, k: nat)
    requires
        r.lawful(),
        h >= 1,
        x.len() == 2 * h,
        s >= 1,
        s * (2 * h) == n,
        r.pow(w, n / 2) == r.neg(r.one),
        k < h,
    ensures
        ({
            let e = r.total(terms(r, w, 2 * s, evens(x), k));
            let o = r.prod(r.pow(w, k * s), r.total(terms(r, w, 2 * s, odds(x), k)));
            &&& r.total(terms(r, w, s, x, k)) == r.sum(e, o)
            &&& r.total(terms(r, w, s, x, k + h)) == r.sum(e, r.neg(o))
        }),
{
    let (lo, hi) = (terms(r, w, s, x, k), terms(r, w, s, x, k + h));
    let (te, to) = (terms(r, w, 2 * s, evens(x), k), terms(r, w, 2 * s, odds(x), k));
    let c = r.pow(w, k * s);
    assert(n == 2 * (s * h)) by (nonlinear_arith)
        requires
            s * (2 * h) == n,
    ;
    assert(s * h >= 1) by (nonlinear_arith)
        requires
            s >= 1,
            h >= 1,
    ;
    assert forall|i: int| 0 <= i < h implies evens(lo)[i] == te[i] && evens(hi)[i] == te[i] by {
        let a = (2 * s) * (i as nat * k);
        assert(s * ((2 * i) as nat * k) == a) by (nonlinear_arith)
            requires
                a == (2 * s) * (i as nat * k),
                i >= 0,
        ;
        assert(s * ((2 * i) as nat * (k + h)) == a + n * i) by (nonlinear_arith)
            requires
                a == (2 * s) * (i as nat * k),
                n == 2 * (s * h),
                i >= 0,
        ;
        lemma_turns(r, w, n, a, i as nat);
    }
    assert(evens(lo) =~= te);
    assert(evens(hi) =~= te);
    assert forall|i: int| 0 <= i < h implies odds(lo)[i] == r.prod(c, to[i]) && odds(hi)[i] == r.neg(
        odds(lo)[i],
    ) by {
        let a = (2 * s) * (i as nat * k);
        let z = x[2 * i + 1];
        assert(s * ((2 * i + 1) as nat * k) == k * s + a) by (nonlinear_arith)
            requires
                a == (2 * s) * (i as nat * k),
                i >= 0,
        ;
        r.lemma_pow_adds(w, k * s, a);
        r.lemma_prod_assoc(c, r.pow(w, a), z);
        let b = k * s + a;
        assert(s * ((2 * i + 1) as nat * (k + h)) == (b + n * i) + n / 2) by (nonlinear_arith)
            requires
                a == (2 * s) * (i as nat * k),
                b == k * s + a,
                n == 2 * (s * h),
                n / 2 == s * h,
                i >= 0,
        ;
        lemma_turns(r, w, n, b, i as nat);
        lemma_turns(r, w, n, b + n * i as nat, 0);
        r.lemma_signs(r.pow(w, b), z);
    }
    lemma_total_parity(r, lo, h);
    lemma_total_parity(r, hi, h);
    r.lemma_total_prod(c, to, odds(lo));
    r.lemma_total_neg(odds(lo), odds(hi));
}

/// What the butterflies make of the transforms of the two halves.
proof fn lemma_joined<C, F: Fn(C, C, usize, usize) -> (C, C)>(
    r: Ring<C>,
    w: C,
    n: nat,
    s: nat,
    f: F,
    e: Seq<C>,
    o: Seq<C>,
    y: Seq<C>,
    h: nat,
    k: nat,
)
    requires
        is_butterfly(r, w, n, f),
        n <= usize::MAX,
        s >= 1,
        h >= 1,
        y.len() == 2 * h,
        s * (2 * h) == n,
        joined(f, e, o, y),
        k < h,
    ensures
        y[k as int] == r.sum(e[k as int], r.prod(r.pow(w, k * s), o[k as int])),
        y[(k + h) as int] == r.sum(e[k as int], r.neg(r.prod(r.pow(w, k * s), o[k as int]))),
{
    let i = k as int;
    assert(2 * h <= n) by (nonlinear_arith)
        requires
            s >= 1,
            s * (2 * h) == n,
    ;
    assert(n / (2 * h) == s) by {
        vstd::arithmetic::div_mod::lemma_div_multiples_vanish(s as int, 2 * h as int);
        assert((2 * h) * s == s * (2 * h)) by (nonlinear_arith);
    }
    assert(call_ensures(f, (e[i], o[i], y.len() as usize, i as usize), (y[i], y[i + h])));
}

/// A transform of `x` by the butterflies of a transform of `n` elements, where `x` has one in `s` of
/// them.
proof fn lemma_there<C, F: Fn(C, C, usize, usize) -> (C, C)>(
    r: Ring<C>,
    w: C,
    n: nat,
    s: nat,
    f: F,
    x: Seq<C>,
    y: Seq<C>,
    bits: nat,
)
    requires
        r.lawful(),
        is_root(r, w, n),
        is_butterfly(r, w, n, f),
        n <= usize::MAX,
        s >= 1,
        x.len() == pow2(bits),
        s * x.len() == n,
        transforms(f, x, y),
    ensures
        y.len() == x.len(),
        forall|k: nat| k < x.len() ==> #[trigger] y[k as int] == r.total(terms(r, w, s, x, k)),
    decreases bits,
{
    vstd::arithmetic::power2::lemma2_to64();
    if bits == 0 {
        let t = terms(r, w, s, x, 0);
        reveal_with_fuel(Ring::total, 2);
        assert(s * (0nat * 0nat) == 0) by (nonlinear_arith);
        r.lemma_one(x[0]);
        r.lemma_zero(x[0]);
        assert(t.drop_last() =~= Seq::<C>::empty());
        assert(t[0] == x[0]);
    } else {
        vstd::arithmetic::power2::lemma_pow2_unfold(bits);
        let b1 = (bits - 1) as nat;
        let h = pow2(b1);
        let (e, o) = choose|e: Seq<C>, o: Seq<C>|
            {
                &&& transforms(f, evens(x), e)
                &&& transforms(f, odds(x), o)
                &&& #[trigger] joined(f, e, o, y)
            };
        assert((2 * s) * h == n && s * (2 * h) == n) by (nonlinear_arith)
            requires
                s * x.len() == n,
                x.len() == 2 * h,
        ;
        assert(n >= 2) by (nonlinear_arith)
            requires
                s * (2 * h) == n,
                s >= 1,
                h >= 1,
        ;
        lemma_there(r, w, n, 2 * s, f, evens(x), e, b1);
        lemma_there(r, w, n, 2 * s, f, odds(x), o, b1);
        assert forall|k: nat| k < x.len() implies #[trigger] y[k as int] == r.total(
            terms(r, w, s, x, k),
        ) by {
            let q = if k < h {
                k
            } else {
                (k - h) as nat
            };
            lemma_joined(r, w, n, s, f, e, o, y, h, q);
            lemma_split(r, w, n, s, x, h, q);
            assert(e[q as int] == r.total(terms(r, w, 2 * s, evens(x), q)));
            assert(o[q as int] == r.total(terms(r, w, 2 * s, odds(x), q)));
        }
    }
}

// ---------- and back ----------

/// Two terms of the way back, of the lower and the upper half: only what the even elements gave
/// stays for an even number, and only what the odd ones gave for an odd number.
proof fn lemma_pair_back<C>(
    r: Ring<C>,
    w: C,
    v: C,
    n: nat,
    s: nat,
    h: nat,
    j: nat,
    k: nat,
    e: C,
    o: C,
)
    requires
        r.lawful(),
        r.prod(v, w) == r.one,
        s >= 1,
        h >= 1,
        s * (2 * h) == n,
        r.pow(v, n / 2) == r.neg(r.one),
    ensures
        ({
            let t = r.prod(r.pow(w, k * s), o);
            let low = r.prod(r.pow(v, s * (j * k)), r.sum(e, t));
            let high = r.prod(r.pow(v, s * (j * (k + h))), r.sum(e, r.neg(t)));
            let kept = if j % 2 == 0 {
                e
            } else {
                o
            };
            let back = r.prod(r.pow(v, (2 * s) * ((j / 2) * k)), kept);
            r.sum(low, high) == r.sum(back, back)
        }),
{
    let t = r.prod(r.pow(w, k * s), o);
    let a = s * (j * k);
    let p = r.pow(v, a);
    let i = j / 2;
    assert(n == 2 * (s * h) && s * h >= 1) by (nonlinear_arith)
        requires
            s * (2 * h) == n,
            s >= 1,
            h >= 1,
    ;
    assert(s * (j * (k + h)) == a + j * (n / 2)) by (nonlinear_arith)
        requires
            a == s * (j * k),
            n / 2 == s * h,
    ;
    lemma_half_turns(r, v, n, a, j);
    let (pe, pt) = (r.prod(p, e), r.prod(p, t));
    r.lemma_spread(p, e, t);
    r.lemma_spread(p, e, r.neg(t));
    r.lemma_signs(p, t);
    r.lemma_neg(pt);
    r.lemma_zero(pe);
    if j % 2 == 0 {
        // (pe + pt) + (pe - pt)
        r.lemma_comm(pe, r.neg(pt));
        r.lemma_assoc(pe, pt, r.sum(r.neg(pt), pe));
        r.lemma_assoc(pt, r.neg(pt), pe);
        assert(a == (2 * s) * (i * k)) by (nonlinear_arith)
            requires
                a == s * (j * k),
                j == 2 * i,
        ;
    } else {
        // (pe + pt) - (pe - pt)
        let d = r.sum(pe, r.neg(pt));
        r.lemma_signs(p, r.sum(e, r.neg(t)));
        r.lemma_signs(pe, r.neg(pt));
        r.lemma_signs(pt, pt);
        r.lemma_comm(pe, pt);
        r.lemma_assoc(pt, pe, r.sum(r.neg(pe), pt));
        r.lemma_assoc(pe, r.neg(pe), pt);
        r.lemma_neg(pe);
        r.lemma_zero(pt);
        // pt is what the odd element gave
        let b = (2 * s) * (i * k);
        assert(a == b + k * s) by (nonlinear_arith)
            requires
                a == s * (j * k),
                j == 2 * i + 1,
                b == (2 * s) * (i * k),
        ;
        let (vb, vk, wk) = (r.pow(v, b), r.pow(v, k * s), r.pow(w, k * s));
        r.lemma_pow_adds(v, b, k * s);
        r.lemma_prod_assoc(vb, vk, t);
        r.lemma_prod_assoc(vk, wk, o);
        r.lemma_pow_inverse(v, w, k * s);
        r.lemma_one(o);
    }
}

/// The Fourier sums of a transform, turned the other way, are the elements times their number.
proof fn lemma_back<C, F: Fn(C, C, usize, usize) -> (C, C)>(
    r: Ring<C>,
    w: C,
    v: C,
    n: nat,
    s: nat,
    f: F,
    x: Seq<C>,
    y: Seq<C>,
    bits: nat,
)
    requires
        r.lawful(),
        r.prod(v, w) == r.one,
        is_root(r, v, n),
        is_butterfly(r, w, n, f),
        n <= usize::MAX,
        s >= 1,
        x.len() == pow2(bits),
        s * x.len() == n,
        transforms(f, x, y),
    ensures
        y.len() == x.len(),
        forall|j: nat|
            j < x.len() ==> #[trigger] r.total(terms(r, v, s, y, j)) == r.multiple(
                x.len(),
                x[j as int],
            ),
    decreases bits,
{
    vstd::arithmetic::power2::lemma2_to64();
    if bits == 0 {
        let t = terms(r, v, s, y, 0);
        reveal_with_fuel(Ring::total, 2);
        reveal_with_fuel(Ring::multiple, 2);
        assert(s * (0nat * 0nat) == 0) by (nonlinear_arith);
        r.lemma_one(x[0]);
        assert(t.drop_last() =~= Seq::<C>::empty());
        assert(t[0] == x[0]);
    } else {
        vstd::arithmetic::power2::lemma_pow2_unfold(bits);
        let b1 = (bits - 1) as nat;
        let h = pow2(b1);
        let (e, o) = choose|e: Seq<C>, o: Seq<C>|
            {
                &&& transforms(f, evens(x), e)
                &&& transforms(f, odds(x), o)
                &&& #[trigger] joined(f, e, o, y)
            };
        assert((2 * s) * h == n && s * (2 * h) == n) by (nonlinear_arith)
            requires
                s * x.len() == n,
                x.len() == 2 * h,
        ;
        assert(n >= 2) by (nonlinear_arith)
            requires
                s * (2 * h) == n,
                s >= 1,
                h >= 1,
        ;
        lemma_back(r, w, v, n, 2 * s, f, evens(x), e, b1);
        lemma_back(r, w, v, n, 2 * s, f, odds(x), o, b1);
        assert forall|j: nat| j < x.len() implies #[trigger] r.total(terms(r, v, s, y, j))
            == r.multiple(x.len(), x[j as int]) by {
            let i = j / 2;
            let t = terms(r, v, s, y, j);
            let (low, high) = (t.take(h as int), t.skip(h as int));
            let half = if j % 2 == 0 {
                e
            } else {
                o
            };
            let back = terms(r, v, 2 * s, half, i);
            let both = Seq::new(h, |k: int| r.sum(low[k], high[k]));
            assert(t =~= low + high);
            r.lemma_total_join(low, high);
            r.lemma_total_sum(low, high, both);
            assert forall|k: int| 0 <= k < h implies #[trigger] both[k] == r.sum(back[k], back[k]) by {
                lemma_joined(r, w, n, s, f, e, o, y, h, k as nat);
                lemma_pair_back(r, w, v, n, s, h, j, k as nat, e[k], o[k]);
                assert(s * (k as nat * j) == s * (j * k as nat)) by (nonlinear_arith);
                assert(s * ((k + h) as nat * j) == s * (j * (k as nat + h))) by (nonlinear_arith)
                    requires
                        k >= 0,
                ;
                assert((2 * s) * (k as nat * i) == (2 * s) * (i * k as nat)) by (nonlinear_arith);
            }
            r.lemma_total_sum(back, back, both);
            let xj = x[j as int];
            assert(r.total(back) == r.multiple(h, xj)) by {
                if j % 2 == 0 {
                    assert(evens(x)[i as int] == xj);
                } else {
                    assert(odds(x)[i as int] == xj);
                }
            }
            r.lemma_multiple_adds(h, h, xj);
        }
    }
}

// ---------- laws ----------

/// Minus one half way round is the same way round in the other direction.
proof fn lemma_inverse_root<C>(r: Ring<C>, w: C, v: C, n: nat)
    requires
        r.lawful(),
        r.prod(v, w) == r.one,
        is_root(r, w, n),
    ensures
        is_root(r, v, n),
{
    if n > 1 {
        let h = n / 2;
        let p = r.pow(v, h);
        r.lemma_pow_inverse(v, w, h);
        r.lemma_signs(p, r.one);
        r.lemma_one(p);
        // -p is one
        r.lemma_signs(p, p);
    }
}

proof fn lemma_plain_terms<C>(r: Ring<C>, w: C, x: Seq<C>, k: nat)
    ensures
        r.total(terms(r, w, 1, x, k)) == fourier_sum(r, w, x, k),
{
    let plain = Seq::new(x.len(), |j: int| r.prod(r.pow(w, j as nat * k), x[j]));
    assert forall|j: int| 0 <= j < x.len() implies terms(r, w, 1, x, k)[j] == plain[j] by {
        let a = j as nat * k;
        assert(1 * a == a);
    }
    assert(terms(r, w, 1, x, k) =~= plain);
}

/// With butterflies that turn by a root of unity, the transform computes the Fourier sums.
pub proof fn law_transform_is_fourier_sum<C, F: Fn(C, C, usize, usize) -> (C, C)>(
    r: Ring<C>,
    w: C,
    f: F,
    x: Seq<C>,
    y: Seq<C>,
    k: nat,
)
    requires
        r.lawful(),
        is_power_of_two(x.len() as int),
        x.len() <= usize::MAX,
        is_root(r, w, x.len()),
        is_butterfly(r, w, x.len(), f),
        transforms(f, x, y),
        k < x.len(),
    ensures
        y.len() == x.len(),
        y[k as int] == fourier_sum(r, w, x, k),
{
    let bits = choose|bits: nat| x.len() == #[trigger] pow2(bits);
    lemma_there(r, w, x.len(), 1, f, x, y, bits);
    lemma_plain_terms(r, w, x, k);
}

/// The Fourier sums of a transform, turned the other way, give every element back, times the number
/// of elements.
pub proof fn law_turning_back_inverts<C, F: Fn(C, C, usize, usize) -> (C, C)>(
    r: Ring<C>,
    w: C,
    v: C,
    f: F,
    x: Seq<C>,
    y: Seq<C>,
    j: nat,
)
    requires
        r.lawful(),
        r.prod(v, w) == r.one,
        is_power_of_two(x.len() as int),
        x.len() <= usize::MAX,
        is_root(r, w, x.len()),
        is_butterfly(r, w, x.len(), f),
        transforms(f, x, y),
        j < x.len(),
    ensures
        fourier_sum(r, v, y, j) == r.multiple(x.len(), x[j as int]),
{
    let bits = choose|bits: nat| x.len() == #[trigger] pow2(bits);
    lemma_inverse_root(r, w, v, x.len());
    lemma_back(r, w, v, x.len(), 1, f, x, y, bits);
    lemma_plain_terms(r, v, y, j);
}

/// A complex number with its parts exchanged.
pub open spec fn swap<R>(c: (R, R)) -> (R, R) {
    (c.1, c.0)
}

/// All numbers with their parts exchanged.
pub open spec fn swapped<R>(x: Seq<(R, R)>) -> Seq<(R, R)> {
    Seq::new(x.len(), |i: int| swap(x[i]))
}

/// The conjugate of a complex number.
pub open spec fn conjugate<R>(r: Ring<R>, c: (R, R)) -> (R, R) {
    (c.0, r.neg(c.1))
}

/// Exchanging the parts turns a power the other way.
proof fn lemma_swap_turns<R>(r: Ring<R>, w: (R, R), a: nat, z: (R, R))
    requires
        r.lawful(),
    ensures
        swap(complex(r).prod(complex(r).pow(conjugate(r, w), a), z)) == complex(r).prod(
            complex(r).pow(w, a),
            swap(z),
        ),
    decreases a,
{
    let k = complex(r);
    let v = conjugate(r, w);
    crate::ring::law_complex_is_ring(r);
    if a == 0 {
        k.lemma_one(z);
        k.lemma_one(swap(z));
    } else {
        let b = (a - 1) as nat;
        let u = k.prod(k.pow(v, b), z);
        lemma_swap_turns(r, w, b, z);
        k.lemma_prod_assoc(v, k.pow(v, b), z);
        k.lemma_prod_assoc(w, k.pow(w, b), swap(z));
        // once more
        r.lemma_signs(w.1, u.1);
        r.lemma_signs(w.1, u.0);
        r.lemma_signs(r.prod(w.1, u.1), r.zero);
        assert(swap(k.prod(v, u)) == k.prod(w, swap(u)));
    }
}

/// Exchanging the parts of all terms exchanges those of the total.
proof fn lemma_swap_total<R>(r: Ring<R>, t: Seq<(R, R)>)
    ensures
        complex(r).total(swapped(t)) == swap(complex(r).total(t)),
    decreases t.len(),
{
    if t.len() > 0 {
        lemma_swap_total(r, t.drop_last());
        assert(swapped(t).drop_last() =~= swapped(t.drop_last()));
    }
}

/// Over complex numbers, transforming twice with the real and the imaginary parts exchanged in
/// between gives every element back with its parts exchanged, times the number of elements.
pub proof fn law_swapping_parts_inverts<R, F: Fn((R, R), (R, R), usize, usize) -> ((R, R), (R, R))>(
    r: Ring<R>,
    w: (R, R),
    f: F,
    x: Seq<(R, R)>,
    y: Seq<(R, R)>,
    z: Seq<(R, R)>,
    j: nat,
)
    requires
        r.lawful(),
        r.commutative(),
        r.sum(r.prod(w.0, w.0), r.prod(w.1, w.1)) == r.one,
        is_power_of_two(x.len() as int),
        x.len() <= usize::MAX,
        is_root(complex(r), w, x.len()),
        is_butterfly(complex(r), w, x.len(), f),
        transforms(f, x, y),
        transforms(f, swapped(y), z),
        j < x.len(),
    ensures
        y.len() == x.len(),
        z.len() == x.len(),
        z[j as int].1 == r.multiple(x.len(), x[j as int].0),
        z[j as int].0 == r.multiple(x.len(), x[j as int].1),
{
    let k = complex(r);
    let v = conjugate(r, w);
    crate::ring::law_complex_is_ring(r);
    assert(k.prod(v, w) == k.one) by {
        r.lemma_signs(w.1, w.1);
        r.lemma_signs(r.prod(w.1, w.1), r.zero);
        r.lemma_signs(w.1, w.0);
        assert(r.prod(w.0, w.1) == r.prod(w.1, w.0));
        r.lemma_neg(r.prod(w.1, w.0));
    }
    law_transform_is_fourier_sum(k, w, f, x, y, j);
    law_transform_is_fourier_sum(k, w, f, swapped(y), z, j);
    law_turning_back_inverts(k, w, v, f, x, y, j);
    let forth = Seq::new(y.len(), |i: int| k.prod(k.pow(w, i as nat * j), swapped(y)[i]));
    let back = Seq::new(y.len(), |i: int| k.prod(k.pow(v, i as nat * j), y[i]));
    assert forall|i: int| 0 <= i < y.len() implies forth[i] == swap(back[i]) by {
        lemma_swap_turns(r, w, i as nat * j, y[i]);
    }
    assert(forth =~= swapped(back));
    assert(fourier_sum(k, w, swapped(y), j) == k.total(forth)) by {
        assert(forth =~= Seq::new(
            swapped(y).len(),
            |i: int| k.prod(k.pow(w, i as nat * j), swapped(y)[i]),
        ));
    }
    lemma_swap_total(r, back);
    crate::ring::lemma_complex_multiple(r, x.len(), x[j as int]);
}

} // verus!
