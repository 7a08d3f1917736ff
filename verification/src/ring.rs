//! Rings: what addition and multiplication obey wherever there are both, and sums of many terms.

use vstd::prelude::*;

verus! {

/// The operations of a ring.
#[verifier::reject_recursive_types(C)]
pub struct Ring<C> {
    pub zero: C,
    pub one: C,
    pub plus: spec_fn(C, C) -> C,
    pub minus: spec_fn(C) -> C,
    pub times: spec_fn(C, C) -> C,
}

impl<C> Ring<C> {
    /// `a + b`.
    pub open spec fn sum(self, a: C, b: C) -> C {
        (self.plus)(a, b)
    }

    /// `-a`.
    pub open spec fn neg(self, a: C) -> C {
        (self.minus)(a)
    }

    /// `a * b`.
    pub open spec fn prod(self, a: C, b: C) -> C {
        (self.times)(a, b)
    }

    /// The operations obey the laws of a ring.
    #[verifier::opaque]
    pub open spec fn lawful(self) -> bool {
        &&& forall|a: C, b: C, c: C| #[trigger]
            self.sum(self.sum(a, b), c) == self.sum(a, self.sum(b, c))
        &&& forall|a: C, b: C| #[trigger] self.sum(a, b) == self.sum(b, a)
        &&& forall|a: C| #[trigger] self.sum(a, self.zero) == a
        &&& forall|a: C| self.sum(a, #[trigger] self.neg(a)) == self.zero
        &&& forall|a: C, b: C, c: C| #[trigger]
            self.prod(self.prod(a, b), c) == self.prod(a, self.prod(b, c))
        &&& forall|a: C| #[trigger] self.prod(self.one, a) == a
        &&& forall|a: C| #[trigger] self.prod(a, self.one) == a
        &&& forall|a: C, b: C, c: C| #[trigger]
            self.prod(a, self.sum(b, c)) == self.sum(self.prod(a, b), self.prod(a, c))
        &&& forall|a: C, b: C, c: C| #[trigger]
            self.prod(self.sum(a, b), c) == self.sum(self.prod(a, c), self.prod(b, c))
    }

    /// The order of the factors does not matter.
    pub open spec fn commutative(self) -> bool {
        forall|a: C, b: C| #[trigger] self.prod(a, b) == self.prod(b, a)
    }

    /// `w` to the power of `a`.
    pub open spec fn pow(self, w: C, a: nat) -> C
        decreases a,
    {
        if a == 0 {
            self.one
        } else {
            self.prod(w, self.pow(w, (a - 1) as nat))
        }
    }

    /// The sum of all terms.
    pub open spec fn total(self, t: Seq<C>) -> C
        decreases t.len(),
    {
        if t.len() == 0 {
            self.zero
        } else {
            self.sum(self.total(t.drop_last()), t.last())
        }
    }

    /// `c` added up `n` times.
    pub open spec fn multiple(self, n: nat, c: C) -> C
        decreases n,
    {
        if n == 0 {
            self.zero
        } else {
            self.sum(self.multiple((n - 1) as nat, c), c)
        }
    }

    // ---------- one law at a time ----------

    pub proof fn lemma_assoc(self, a: C, b: C, c: C)
        requires
            self.lawful(),
        ensures
            self.sum(self.sum(a, b), c) == self.sum(a, self.sum(b, c)),
    {
        reveal(Ring::lawful);
    }

    pub proof fn lemma_comm(self, a: C, b: C)
        requires
            self.lawful(),
        ensures
            self.sum(a, b) == self.sum(b, a),
    {
        reveal(Ring::lawful);
    }

    pub proof fn lemma_zero(self, a: C)
        requires
            self.lawful(),
        ensures
            self.sum(a, self.zero) == a,
            self.sum(self.zero, a) == a,
    {
        reveal(Ring::lawful);
        assert(self.sum(self.zero, a) == self.sum(a, self.zero));
    }

    pub proof fn lemma_neg(self, a: C)
        requires
            self.lawful(),
        ensures
            self.sum(a, self.neg(a)) == self.zero,
            self.sum(self.neg(a), a) == self.zero,
    {
        reveal(Ring::lawful);
        assert(self.sum(self.neg(a), a) == self.sum(a, self.neg(a)));
    }

    pub proof fn lemma_prod_assoc(self, a: C, b: C, c: C)
        requires
            self.lawful(),
        ensures
            self.prod(self.prod(a, b), c) == self.prod(a, self.prod(b, c)),
    {
        reveal(Ring::lawful);
    }

    pub proof fn lemma_one(self, a: C)
        requires
            self.lawful(),
        ensures
            self.prod(self.one, a) == a,
            self.prod(a, self.one) == a,
    {
        reveal(Ring::lawful);
    }

    pub proof fn lemma_spread(self, a: C, b: C, c: C)
        requires
            self.lawful(),
        ensures
            self.prod(a, self.sum(b, c)) == self.sum(self.prod(a, b), self.prod(a, c)),
            self.prod(self.sum(a, b), c) == self.sum(self.prod(a, c), self.prod(b, c)),
    {
        reveal(Ring::lawful);
    }

    // ---------- what follows ----------

    /// The second and the third of four terms change places.
    pub proof fn lemma_middle(self, a: C, b: C, c: C, d: C)
        requires
            self.lawful(),
        ensures
            self.sum(self.sum(a, b), self.sum(c, d)) == self.sum(self.sum(a, c), self.sum(b, d)),
    {
        self.lemma_assoc(a, b, self.sum(c, d));
        self.lemma_assoc(b, c, d);
        self.lemma_comm(b, c);
        self.lemma_assoc(c, b, d);
        self.lemma_assoc(a, c, self.sum(b, d));
    }

    /// What adds up to zero with `a` is `-a`.
    pub proof fn lemma_neg_unique(self, a: C, b: C)
        requires
            self.lawful(),
            self.sum(a, b) == self.zero,
        ensures
            b == self.neg(a),
    {
        let n = self.neg(a);
        self.lemma_neg(a);
        self.lemma_assoc(n, a, b);
        self.lemma_zero(b);
        self.lemma_zero(n);
    }

    /// Zero times anything is zero.
    pub proof fn lemma_prod_zero(self, a: C)
        requires
            self.lawful(),
        ensures
            self.prod(self.zero, a) == self.zero,
            self.prod(a, self.zero) == self.zero,
    {
        let z = self.zero;
        self.lemma_zero(z);
        let p = self.prod(z, a);
        self.lemma_spread(z, z, a);
        self.lemma_neg(p);
        self.lemma_assoc(p, p, self.neg(p));
        self.lemma_zero(p);
        let q = self.prod(a, z);
        self.lemma_spread(a, z, z);
        self.lemma_neg(q);
        self.lemma_assoc(q, q, self.neg(q));
        self.lemma_zero(q);
    }

    /// Signs move out of products and into sums.
    pub proof fn lemma_signs(self, a: C, b: C)
        requires
            self.lawful(),
        ensures
            self.prod(self.neg(a), b) == self.neg(self.prod(a, b)),
            self.prod(a, self.neg(b)) == self.neg(self.prod(a, b)),
            self.neg(self.sum(a, b)) == self.sum(self.neg(a), self.neg(b)),
            self.neg(self.neg(a)) == a,
            self.neg(self.zero) == self.zero,
    {
        self.lemma_neg(a);
        self.lemma_neg(b);
        self.lemma_prod_zero(a);
        self.lemma_prod_zero(b);
        self.lemma_spread(a, self.neg(a), b);
        self.lemma_neg_unique(self.prod(a, b), self.prod(self.neg(a), b));
        self.lemma_spread(a, b, self.neg(b));
        self.lemma_neg_unique(self.prod(a, b), self.prod(a, self.neg(b)));
        self.lemma_middle(a, b, self.neg(a), self.neg(b));
        self.lemma_zero(self.zero);
        self.lemma_neg_unique(self.sum(a, b), self.sum(self.neg(a), self.neg(b)));
        self.lemma_neg_unique(self.neg(a), a);
        self.lemma_neg_unique(self.zero, self.zero);
    }

    // ---------- powers ----------

    pub proof fn lemma_pow_adds(self, w: C, a: nat, b: nat)
        requires
            self.lawful(),
        ensures
            self.pow(w, a + b) == self.prod(self.pow(w, a), self.pow(w, b)),
        decreases a,
    {
        if a == 0 {
            self.lemma_one(self.pow(w, b));
        } else {
            let c = (a - 1) as nat;
            self.lemma_pow_adds(w, c, b);
            self.lemma_prod_assoc(w, self.pow(w, c), self.pow(w, b));
            assert((a + b - 1) as nat == c + b);
        }
    }

    /// Powers of inverse numbers are inverse.
    pub proof fn lemma_pow_inverse(self, v: C, w: C, a: nat)
        requires
            self.lawful(),
            self.prod(v, w) == self.one,
        ensures
            self.prod(self.pow(v, a), self.pow(w, a)) == self.one,
        decreases a,
    {
        if a == 0 {
            self.lemma_one(self.one);
        } else {
            let c = (a - 1) as nat;
            let (p, q) = (self.pow(v, c), self.pow(w, c));
            self.lemma_pow_inverse(v, w, c);
            // v^a = v^c * v
            self.lemma_pow_adds(v, c, 1);
            self.lemma_pow_one(v);
            // (v^c * v) * (w * w^c)
            self.lemma_prod_assoc(p, v, self.prod(w, q));
            self.lemma_prod_assoc(v, w, q);
            self.lemma_one(q);
        }
    }

    pub proof fn lemma_pow_one(self, w: C)
        requires
            self.lawful(),
        ensures
            self.pow(w, 1) == w,
    {
        reveal_with_fuel(Ring::pow, 2);
        self.lemma_one(w);
    }

    // ---------- totals ----------

    /// A total of sums is the sum of the totals.
    pub proof fn lemma_total_sum(self, s: Seq<C>, t: Seq<C>, u: Seq<C>)
        requires
            self.lawful(),
            s.len() == t.len(),
            u.len() == s.len(),
            forall|i: int| 0 <= i < s.len() ==> #[trigger] u[i] == self.sum(s[i], t[i]),
        ensures
            self.total(u) == self.sum(self.total(s), self.total(t)),
        decreases s.len(),
    {
        if s.len() == 0 {
            self.lemma_zero(self.zero);
        } else {
            let (p, q) = (s.drop_last(), t.drop_last());
            self.lemma_total_sum(p, q, u.drop_last());
            self.lemma_middle(self.total(p), self.total(q), s.last(), t.last());
        }
    }

    /// A total goes on with its last part.
    pub proof fn lemma_total_join(self, s: Seq<C>, t: Seq<C>)
        requires
            self.lawful(),
        ensures
            self.total(s + t) == self.sum(self.total(s), self.total(t)),
        decreases t.len(),
    {
        if t.len() == 0 {
            assert(s + t =~= s);
            self.lemma_zero(self.total(s));
        } else {
            assert((s + t).drop_last() =~= s + t.drop_last());
            self.lemma_total_join(s, t.drop_last());
            self.lemma_assoc(self.total(s), self.total(t.drop_last()), t.last());
        }
    }

    /// A factor of all terms is one of the total.
    pub proof fn lemma_total_prod(self, c: C, s: Seq<C>, t: Seq<C>)
        requires
            self.lawful(),
            s.len() == t.len(),
            forall|i: int| 0 <= i < s.len() ==> #[trigger] t[i] == self.prod(c, s[i]),
        ensures
            self.total(t) == self.prod(c, self.total(s)),
        decreases s.len(),
    {
        if s.len() == 0 {
            self.lemma_prod_zero(c);
        } else {
            self.lemma_total_prod(c, s.drop_last(), t.drop_last());
            self.lemma_spread(c, self.total(s.drop_last()), s.last());
        }
    }

    /// A sign of all terms is one of the total.
    pub proof fn lemma_total_neg(self, s: Seq<C>, t: Seq<C>)
        requires
            self.lawful(),
            s.len() == t.len(),
            forall|i: int| 0 <= i < s.len() ==> #[trigger] t[i] == self.neg(s[i]),
        ensures
            self.total(t) == self.neg(self.total(s)),
        decreases s.len(),
    {
        if s.len() == 0 {
            self.lemma_signs(self.zero, self.zero);
        } else {
            self.lemma_total_neg(s.drop_last(), t.drop_last());
            self.lemma_signs(self.total(s.drop_last()), s.last());
        }
    }

    pub proof fn lemma_multiple_adds(self, a: nat, b: nat, c: C)
        requires
            self.lawful(),
        ensures
            self.multiple(a + b, c) == self.sum(self.multiple(a, c), self.multiple(b, c)),
        decreases b,
    {
        if b == 0 {
            self.lemma_zero(self.multiple(a, c));
        } else {
            let d = (b - 1) as nat;
            self.lemma_multiple_adds(a, d, c);
            self.lemma_assoc(self.multiple(a, c), self.multiple(d, c), c);
            assert((a + b - 1) as nat == a + d);
        }
    }
}

/// What makes a ring.
proof fn lemma_lawful<C>(k: Ring<C>)
    requires
        forall|a: C, b: C, c: C| #[trigger] k.sum(k.sum(a, b), c) == k.sum(a, k.sum(b, c)),
        forall|a: C, b: C| #[trigger] k.sum(a, b) == k.sum(b, a),
        forall|a: C| #[trigger] k.sum(a, k.zero) == a,
        forall|a: C| k.sum(a, #[trigger] k.neg(a)) == k.zero,
        forall|a: C, b: C, c: C| #[trigger] k.prod(k.prod(a, b), c) == k.prod(a, k.prod(b, c)),
        forall|a: C| #[trigger] k.prod(k.one, a) == a,
        forall|a: C| #[trigger] k.prod(a, k.one) == a,
        forall|a: C, b: C, c: C| #[trigger]
            k.prod(a, k.sum(b, c)) == k.sum(k.prod(a, b), k.prod(a, c)),
        forall|a: C, b: C, c: C| #[trigger]
            k.prod(k.sum(a, b), c) == k.sum(k.prod(a, c), k.prod(b, c)),
    ensures
        k.lawful(),
{
    reveal(Ring::lawful);
}

// ---------- complex numbers ----------

/// The complex numbers over a ring, as pairs of a real and an imaginary part.
pub open spec fn complex<R>(r: Ring<R>) -> Ring<(R, R)> {
    Ring {
        zero: (r.zero, r.zero),
        one: (r.one, r.zero),
        plus: |a: (R, R), b: (R, R)| (r.sum(a.0, b.0), r.sum(a.1, b.1)),
        minus: |a: (R, R)| (r.neg(a.0), r.neg(a.1)),
        times: |a: (R, R), b: (R, R)|
            (
                r.sum(r.prod(a.0, b.0), r.neg(r.prod(a.1, b.1))),
                r.sum(r.prod(a.0, b.1), r.prod(a.1, b.0)),
            ),
    }
}

/// The product of three complex numbers, however it is bracketed.
proof fn lemma_complex_assoc<R>(r: Ring<R>, p: (R, R), q: (R, R), s: (R, R))
    requires
        r.lawful(),
    ensures
        complex(r).prod(complex(r).prod(p, q), s) == complex(r).prod(p, complex(r).prod(q, s)),
{
    let (a, b) = p;
    let (c, d) = q;
    let (e, f) = s;
    let (ac, bd, ad, bc) = (r.prod(a, c), r.prod(b, d), r.prod(a, d), r.prod(b, c));
    let (ce, df, cf, de) = (r.prod(c, e), r.prod(d, f), r.prod(c, f), r.prod(d, e));
    // three factors each
    r.lemma_prod_assoc(a, c, e);
    r.lemma_prod_assoc(b, d, e);
    r.lemma_prod_assoc(a, d, f);
    r.lemma_prod_assoc(b, c, f);
    r.lemma_prod_assoc(a, c, f);
    r.lemma_prod_assoc(b, d, f);
    r.lemma_prod_assoc(a, d, e);
    r.lemma_prod_assoc(b, c, e);
    // the left side, spread out
    r.lemma_spread(ac, r.neg(bd), e);
    r.lemma_spread(ac, r.neg(bd), f);
    r.lemma_spread(ad, bc, e);
    r.lemma_spread(ad, bc, f);
    r.lemma_signs(bd, e);
    r.lemma_signs(bd, f);
    r.lemma_signs(r.prod(ad, f), r.prod(bc, f));
    // the right side, spread out
    r.lemma_spread(a, ce, r.neg(df));
    r.lemma_spread(b, ce, r.neg(df));
    r.lemma_spread(a, cf, de);
    r.lemma_spread(b, cf, de);
    r.lemma_signs(a, df);
    r.lemma_signs(b, df);
    r.lemma_signs(r.prod(b, cf), r.prod(b, de));
    // real parts
    let (x, y, z, t) = (
        r.prod(a, ce),
        r.neg(r.prod(b, de)),
        r.neg(r.prod(a, df)),
        r.neg(r.prod(b, cf)),
    );
    r.lemma_middle(x, y, z, t);
    r.lemma_comm(y, t);
    // imaginary parts
    let (x, y, z, t) = (r.prod(a, cf), r.neg(r.prod(b, df)), r.prod(a, de), r.prod(b, ce));
    r.lemma_middle(x, y, z, t);
    r.lemma_comm(y, t);
}

/// Products of complex numbers spread over sums.
proof fn lemma_complex_spread<R>(r: Ring<R>, p: (R, R), q: (R, R), s: (R, R))
    requires
        r.lawful(),
    ensures
        complex(r).prod(p, complex(r).sum(q, s)) == complex(r).sum(
            complex(r).prod(p, q),
            complex(r).prod(p, s),
        ),
        complex(r).prod(complex(r).sum(p, q), s) == complex(r).sum(
            complex(r).prod(p, s),
            complex(r).prod(q, s),
        ),
{
    let (a, b) = p;
    let (c, d) = q;
    let (e, f) = s;
    r.lemma_spread(a, c, e);
    r.lemma_spread(a, d, f);
    r.lemma_spread(b, d, f);
    r.lemma_spread(b, c, e);
    r.lemma_signs(r.prod(b, d), r.prod(b, f));
    r.lemma_middle(r.prod(a, c), r.prod(a, e), r.neg(r.prod(b, d)), r.neg(r.prod(b, f)));
    r.lemma_middle(r.prod(a, d), r.prod(a, f), r.prod(b, c), r.prod(b, e));
    r.lemma_spread(a, c, f);
    r.lemma_spread(b, d, e);
    r.lemma_signs(r.prod(b, f), r.prod(d, f));
    r.lemma_middle(r.prod(a, e), r.prod(c, e), r.neg(r.prod(b, f)), r.neg(r.prod(d, f)));
    r.lemma_middle(r.prod(a, f), r.prod(c, f), r.prod(b, e), r.prod(d, e));
}

/// The complex numbers over a ring are a ring.
pub proof fn law_complex_is_ring<R>(r: Ring<R>)
    requires
        r.lawful(),
    ensures
        complex(r).lawful(),
{
    let k = complex(r);
    assert forall|a: (R, R), b: (R, R), c: (R, R)| #[trigger]
        k.sum(k.sum(a, b), c) == k.sum(a, k.sum(b, c)) by {
        r.lemma_assoc(a.0, b.0, c.0);
        r.lemma_assoc(a.1, b.1, c.1);
    }
    assert forall|a: (R, R), b: (R, R)| #[trigger] k.sum(a, b) == k.sum(b, a) by {
        r.lemma_comm(a.0, b.0);
        r.lemma_comm(a.1, b.1);
    }
    assert forall|a: (R, R)| #[trigger] k.sum(a, k.zero) == a by {
        r.lemma_zero(a.0);
        r.lemma_zero(a.1);
    }
    assert forall|a: (R, R)| k.sum(a, #[trigger] k.neg(a)) == k.zero by {
        r.lemma_neg(a.0);
        r.lemma_neg(a.1);
    }
    assert forall|a: (R, R), b: (R, R), c: (R, R)| #[trigger]
        k.prod(k.prod(a, b), c) == k.prod(a, k.prod(b, c)) by {
        lemma_complex_assoc(r, a, b, c);
    }
    assert forall|a: (R, R)| #[trigger] k.prod(k.one, a) == a by {
        lemma_complex_one(r, a);
    }
    assert forall|a: (R, R)| #[trigger] k.prod(a, k.one) == a by {
        lemma_complex_one(r, a);
    }
    assert forall|a: (R, R), b: (R, R), c: (R, R)| #[trigger]
        k.prod(a, k.sum(b, c)) == k.sum(k.prod(a, b), k.prod(a, c)) by {
        lemma_complex_spread(r, a, b, c);
    }
    assert forall|a: (R, R), b: (R, R), c: (R, R)| #[trigger]
        k.prod(k.sum(a, b), c) == k.sum(k.prod(a, c), k.prod(b, c)) by {
        lemma_complex_spread(r, a, b, c);
    }
    lemma_lawful(k);
}

proof fn lemma_complex_one<R>(r: Ring<R>, a: (R, R))
    requires
        r.lawful(),
    ensures
        complex(r).prod(complex(r).one, a) == a,
        complex(r).prod(a, complex(r).one) == a,
{
    r.lemma_one(a.0);
    r.lemma_one(a.1);
    r.lemma_prod_zero(a.0);
    r.lemma_prod_zero(a.1);
    r.lemma_signs(r.zero, r.zero);
    r.lemma_zero(a.0);
    r.lemma_zero(a.1);
}

/// A multiple of a complex number, by its parts.
pub proof fn lemma_complex_multiple<R>(r: Ring<R>, n: nat, c: (R, R))
    ensures
        complex(r).multiple(n, c) == (r.multiple(n, c.0), r.multiple(n, c.1)),
    decreases n,
{
    if n > 0 {
        lemma_complex_multiple(r, (n - 1) as nat, c);
    }
}

} // verus!
