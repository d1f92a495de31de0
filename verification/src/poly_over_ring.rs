//! Polynomials with coefficients in `R = (Z/mZ)[x] / f(x)`, as lists of
//! elements, constant term first: their values, the factor theorem, and the
//! fact that a polynomial with more roots than coefficients is zero
//! wherever the differences of the roots are units.

use crate::ring::GaloisRing;
use vstd::prelude::*;

verus! {

impl GaloisRing {
    /// The value at `w` of the polynomial `c` by Horner's rule.
    pub open spec fn horner(&self, c: Seq<Seq<int>>, w: Seq<int>) -> Seq<int>
        decreases c.len(),
    {
        if c.len() == 0 {
            self.ring_zero()
        } else {
            self.ring_add(c[0], self.ring_mul(w, self.horner(c.drop_first(), w)))
        }
    }

    /// `e` has an inverse in the ring.
    pub open spec fn is_ring_unit(&self, e: Seq<int>) -> bool {
        exists|v: Seq<int>| self.contains(v) && #[trigger] self.ring_mul(e, v) == self.ring_one()
    }

    /// The differences of any two of the first `n` points are units.
    pub open spec fn units_between(&self, xs: Seq<Seq<int>>, n: nat) -> bool {
        forall|i: int, j: int|
            0 <= i < n && 0 <= j < n && i != j ==> self.is_ring_unit(
                #[trigger] self.ring_sub(xs[i], xs[j]),
            )
    }

    /// The sum of two lists of the same length.
    pub open spec fn list_add(&self, c: Seq<Seq<int>>, e: Seq<Seq<int>>) -> Seq<Seq<int>> {
        Seq::new(c.len(), |i: int| self.ring_add(c[i], e[i]))
    }

    /// The difference of two lists of the same length.
    pub open spec fn list_sub(&self, c: Seq<Seq<int>>, e: Seq<Seq<int>>) -> Seq<Seq<int>> {
        Seq::new(c.len(), |i: int| self.ring_sub(c[i], e[i]))
    }

    /// The list `c` times the element `s`.
    pub open spec fn list_scale(&self, s: Seq<int>, c: Seq<Seq<int>>) -> Seq<Seq<int>> {
        Seq::new(c.len(), |i: int| self.ring_mul(s, c[i]))
    }

    /// A list of `n` zeros.
    pub open spec fn list_zero(&self, n: nat) -> Seq<Seq<int>> {
        Seq::new(n, |i: int| self.ring_zero())
    }

    /// The list `c` with zeros appended up to the length `n`.
    pub open spec fn list_pad(&self, c: Seq<Seq<int>>, n: nat) -> Seq<Seq<int>> {
        Seq::new(
            n,
            |i: int|
                if i < c.len() {
                    c[i]
                } else {
                    self.ring_zero()
                },
        )
    }

    /// The coefficients of `(X - a) * c(X)`.
    pub open spec fn mul_linear(&self, c: Seq<Seq<int>>, a: Seq<int>) -> Seq<Seq<int>> {
        self.list_sub(
            seq![self.ring_zero()] + c,
            self.list_scale(a, c + seq![self.ring_zero()]),
        )
    }

    /// The quotient of `c(X)` by `X - a`.
    pub open spec fn quotient_by(&self, c: Seq<Seq<int>>, a: Seq<int>) -> Seq<Seq<int>>
        decreases c.len(),
    {
        if c.len() <= 1 {
            Seq::empty()
        } else {
            seq![self.horner(c.drop_first(), a)] + self.quotient_by(c.drop_first(), a)
        }
    }

    /// `(a - b) + (c - d) = (a + c) - (b + d)`.
    pub proof fn lemma_add_sub_interchange(
        &self,
        a: Seq<int>,
        b: Seq<int>,
        c: Seq<int>,
        d: Seq<int>,
    )
        requires
            self.wf(),
            self.contains(a),
            self.contains(b),
            self.contains(c),
            self.contains(d),
        ensures
            self.ring_add(self.ring_sub(a, b), self.ring_sub(c, d)) == self.ring_sub(
                self.ring_add(a, c),
                self.ring_add(b, d),
            ),
    {
        let m = self.m();
        let l = self.ring_add(self.ring_sub(a, b), self.ring_sub(c, d));
        let r = self.ring_sub(self.ring_add(a, c), self.ring_add(b, d));
        assert forall|i: int| 0 <= i < self.dim() implies l[i] == r[i] by {
            vstd::arithmetic::div_mod::lemma_add_mod_noop(a[i] - b[i], c[i] - d[i], m);
            vstd::arithmetic::div_mod::lemma_sub_mod_noop(a[i] + c[i], b[i] + d[i], m);
        }
        assert(l =~= r);
    }

    /// An element whose difference with another is zero is that other.
    pub proof fn lemma_sub_zero_eq(&self, a: Seq<int>, b: Seq<int>)
        requires
            self.wf(),
            self.contains(a),
            self.contains(b),
            self.ring_sub(a, b) == self.ring_zero(),
        ensures
            a == b,
    {
        self.lemma_sub_add_cancel(a, b);
        self.lemma_add_zero(b);
    }

    /// The value of a sum is the sum of the values.
    pub proof fn lemma_horner_add(&self, c: Seq<Seq<int>>, e: Seq<Seq<int>>, w: Seq<int>)
        requires
            self.wf(),
            self.all_elements(c),
            self.all_elements(e),
            c.len() == e.len(),
            self.contains(w),
        ensures
            self.horner(self.list_add(c, e), w) == self.ring_add(
                self.horner(c, w),
                self.horner(e, w),
            ),
        decreases c.len(),
    {
        self.lemma_results_are_elements();
        let s = self.list_add(c, e);
        if c.len() == 0 {
            self.lemma_add_zero(self.ring_zero());
        } else {
            let ct = c.drop_first();
            let et = e.drop_first();
            assert(s.drop_first() =~= self.list_add(ct, et));
            assert(self.all_elements(ct)) by {
                assert forall|i: int| 0 <= i < ct.len() implies self.contains(#[trigger] ct[i]) by {
                    assert(ct[i] == c[i + 1]);
                }
            }
            assert(self.all_elements(et)) by {
                assert forall|i: int| 0 <= i < et.len() implies self.contains(#[trigger] et[i]) by {
                    assert(et[i] == e[i + 1]);
                }
            }
            self.lemma_horner_add(ct, et, w);
            let hc = self.horner(ct, w);
            let he = self.horner(et, w);
            // (c0 + e0) + w (hc + he) = (c0 + w hc) + (e0 + w he)
            self.lemma_distributive(w, hc, he);
            let x = self.ring_mul(w, hc);
            let y = self.ring_mul(w, he);
            assert(self.contains(c[0]) && self.contains(e[0]));
            self.lemma_add_four(c[0], e[0], x, y);
        }
    }

    /// `(a + b) + (c + d) = (a + c) + (b + d)`.
    pub proof fn lemma_add_four(&self, a: Seq<int>, b: Seq<int>, c: Seq<int>, d: Seq<int>)
        requires
            self.wf(),
        ensures
            self.ring_add(self.ring_add(a, b), self.ring_add(c, d)) == self.ring_add(
                self.ring_add(a, c),
                self.ring_add(b, d),
            ),
    {
        self.lemma_add_assoc(a, b, self.ring_add(c, d));
        self.lemma_add_assoc(b, c, d);
        self.lemma_add_comm(b, c);
        self.lemma_add_assoc(c, b, d);
        self.lemma_add_assoc(a, c, self.ring_add(b, d));
    }

    /// The value of a difference is the difference of the values.
    pub proof fn lemma_horner_sub(&self, c: Seq<Seq<int>>, e: Seq<Seq<int>>, w: Seq<int>)
        requires
            self.wf(),
            self.all_elements(c),
            self.all_elements(e),
            c.len() == e.len(),
            self.contains(w),
        ensures
            self.horner(self.list_sub(c, e), w) == self.ring_sub(
                self.horner(c, w),
                self.horner(e, w),
            ),
        decreases c.len(),
    {
        self.lemma_results_are_elements();
        let s = self.list_sub(c, e);
        if c.len() == 0 {
            self.lemma_sub_self(self.ring_zero());
        } else {
            let ct = c.drop_first();
            let et = e.drop_first();
            assert(s.drop_first() =~= self.list_sub(ct, et));
            assert(self.all_elements(ct)) by {
                assert forall|i: int| 0 <= i < ct.len() implies self.contains(#[trigger] ct[i]) by {
                    assert(ct[i] == c[i + 1]);
                }
            }
            assert(self.all_elements(et)) by {
                assert forall|i: int| 0 <= i < et.len() implies self.contains(#[trigger] et[i]) by {
                    assert(et[i] == e[i + 1]);
                }
            }
            self.lemma_horner_sub(ct, et, w);
            let hc = self.horner(ct, w);
            let he = self.horner(et, w);
            // w (hc - he) = w hc - w he
            self.lemma_distributive_sub(w, hc, he);
            self.lemma_mul_comm(w, self.ring_sub(hc, he));
            self.lemma_mul_comm(w, hc);
            self.lemma_mul_comm(w, he);
            let x = self.ring_mul(w, hc);
            let y = self.ring_mul(w, he);
            assert(self.contains(c[0]) && self.contains(e[0]));
            self.lemma_add_sub_interchange(c[0], e[0], x, y);
        }
    }

    /// The value of a list times `s` is `s` times the value.
    pub proof fn lemma_horner_scale(&self, s: Seq<int>, c: Seq<Seq<int>>, w: Seq<int>)
        requires
            self.wf(),
            self.all_elements(c),
            self.contains(s),
            self.contains(w),
        ensures
            self.horner(self.list_scale(s, c), w) == self.ring_mul(s, self.horner(c, w)),
        decreases c.len(),
    {
        self.lemma_results_are_elements();
        let sc = self.list_scale(s, c);
        if c.len() == 0 {
            self.lemma_mul_zero(s);
        } else {
            let ct = c.drop_first();
            assert(sc.drop_first() =~= self.list_scale(s, ct));
            assert(self.all_elements(ct)) by {
                assert forall|i: int| 0 <= i < ct.len() implies self.contains(#[trigger] ct[i]) by {
                    assert(ct[i] == c[i + 1]);
                }
            }
            self.lemma_horner_scale(s, ct, w);
            let h = self.horner(ct, w);
            // s c0 + w (s h) = s (c0 + w h)
            self.lemma_mul_assoc(w, s, h);
            self.lemma_mul_comm(w, s);
            self.lemma_mul_assoc(s, w, h);
            self.lemma_distributive(s, c[0], self.ring_mul(w, h));
            assert(self.contains(c[0]));
        }
    }

    /// The value of a polynomial with a zero put before its coefficients
    /// is `w` times the value.
    pub proof fn lemma_horner_shift(&self, c: Seq<Seq<int>>, w: Seq<int>)
        requires
            self.wf(),
        ensures
            self.horner(seq![self.ring_zero()] + c, w) == self.ring_mul(w, self.horner(c, w)),
    {
        self.lemma_results_are_elements();
        let s = seq![self.ring_zero()] + c;
        assert(s.drop_first() =~= c);
        self.lemma_add_zero(self.ring_mul(w, self.horner(c, w)));
    }

    /// Zeros after the coefficients leave the value as it is.
    pub proof fn lemma_horner_pad(&self, c: Seq<Seq<int>>, n: nat, w: Seq<int>)
        requires
            self.wf(),
            self.all_elements(c),
            c.len() <= n,
        ensures
            self.horner(self.list_pad(c, n), w) == self.horner(c, w),
            self.all_elements(self.list_pad(c, n)),
        decreases n,
    {
        self.lemma_results_are_elements();
        let p = self.list_pad(c, n);
        assert forall|i: int| 0 <= i < p.len() implies self.contains(#[trigger] p[i]) by {
            if i < c.len() {
                assert(self.contains(c[i]));
            }
        }
        if n > 0 {
            if c.len() == 0 {
                assert(p.drop_first() =~= self.list_pad(c, (n - 1) as nat));
                self.lemma_horner_pad(c, (n - 1) as nat, w);
                self.lemma_mul_zero(w);
                self.lemma_add_zero(self.ring_zero());
            } else {
                let ct = c.drop_first();
                assert(p.drop_first() =~= self.list_pad(ct, (n - 1) as nat));
                assert(self.all_elements(ct)) by {
                    assert forall|i: int| 0 <= i < ct.len() implies self.contains(
                        #[trigger] ct[i],
                    ) by {
                        assert(ct[i] == c[i + 1]);
                    }
                }
                self.lemma_horner_pad(ct, (n - 1) as nat, w);
            }
        } else {
            assert(p =~= c);
        }
    }

    /// The value of `(X - a) * c(X)` is `(w - a)` times the value of `c`.
    pub proof fn lemma_horner_mul_linear(&self, c: Seq<Seq<int>>, a: Seq<int>, w: Seq<int>)
        requires
            self.wf(),
            self.all_elements(c),
            self.contains(a),
            self.contains(w),
        ensures
            self.horner(self.mul_linear(c, a), w) == self.ring_mul(
                self.ring_sub(w, a),
                self.horner(c, w),
            ),
            self.all_elements(self.mul_linear(c, a)),
            self.mul_linear(c, a).len() == c.len() + 1,
    {
        self.lemma_results_are_elements();
        let zero = self.ring_zero();
        let shifted = seq![zero] + c;
        let padded = c + seq![zero];
        let scaled = self.list_scale(a, padded);
        let r = self.mul_linear(c, a);
        assert(padded =~= self.list_pad(c, (c.len() + 1) as nat));
        self.lemma_horner_pad(c, (c.len() + 1) as nat, w);
        assert(self.all_elements(shifted)) by {
            assert forall|i: int| 0 <= i < shifted.len() implies self.contains(
                #[trigger] shifted[i],
            ) by {
                if i > 0 {
                    assert(shifted[i] == c[i - 1]);
                }
            }
        }
        assert(self.all_elements(scaled));
        assert(self.all_elements(r));
        self.lemma_horner_sub(shifted, scaled, w);
        self.lemma_horner_shift(c, w);
        self.lemma_horner_scale(a, padded, w);
        let h = self.horner(c, w);
        // w h - a h = (w - a) h
        self.lemma_distributive_sub(h, w, a);
    }

    /// The value of a list of zeros is zero.
    pub proof fn lemma_horner_zero(&self, n: nat, w: Seq<int>)
        requires
            self.wf(),
        ensures
            self.horner(self.list_zero(n), w) == self.ring_zero(),
            self.all_elements(self.list_zero(n)),
    {
        self.lemma_results_are_elements();
        let none = Seq::<Seq<int>>::empty();
        assert(self.all_elements(none));
        assert(self.list_zero(n) =~= self.list_pad(none, n));
        self.lemma_horner_pad(none, n, w);
    }

    /// The factor theorem: `c(w) = c(a) + (w - a) * q(w)`, where `q` is the
    /// quotient of `c(X)` by `X - a`.
    pub proof fn lemma_factor(&self, c: Seq<Seq<int>>, a: Seq<int>, w: Seq<int>)
        requires
            self.wf(),
            self.all_elements(c),
            self.contains(a),
            self.contains(w),
        ensures
            self.horner(c, w) == self.ring_add(
                self.horner(c, a),
                self.ring_mul(self.ring_sub(w, a), self.horner(self.quotient_by(c, a), w)),
            ),
            self.all_elements(self.quotient_by(c, a)),
            c.len() >= 1 ==> self.quotient_by(c, a).len() == c.len() - 1,
            c.len() == 0 ==> self.quotient_by(c, a).len() == 0,
        decreases c.len(),
    {
        self.lemma_results_are_elements();
        let zero = self.ring_zero();
        let d = self.ring_sub(w, a);
        if c.len() == 0 {
            self.lemma_mul_zero(d);
            self.lemma_add_zero(zero);
        } else if c.len() == 1 {
            assert(c.drop_first().len() == 0);
            assert(self.horner(c.drop_first(), w) == zero);
            assert(self.horner(c.drop_first(), a) == zero);
            assert(self.horner(self.quotient_by(c, a), w) == zero);
            self.lemma_mul_zero(d);
            self.lemma_mul_zero(w);
            self.lemma_mul_zero(a);
            assert(self.contains(c[0]));
            self.lemma_add_zero(c[0]);
        } else {
            let t = c.drop_first();
            assert(self.all_elements(t)) by {
                assert forall|i: int| 0 <= i < t.len() implies self.contains(#[trigger] t[i]) by {
                    assert(t[i] == c[i + 1]);
                }
            }
            self.lemma_factor(t, a, w);
            let q = self.quotient_by(c, a);
            let qt = self.quotient_by(t, a);
            let ta = self.horner(t, a);
            let z = self.horner(qt, w);
            assert(q.drop_first() =~= qt);
            assert(q[0] == ta);
            assert forall|i: int| 0 <= i < q.len() implies self.contains(#[trigger] q[i]) by {
                if i > 0 {
                    assert(q[i] == qt[i - 1]);
                }
            }
            assert(self.contains(c[0]));
            // horner(t, w) = ta + d z
            // left: c0 + w (ta + d z) = c0 + (w ta + w (d z))
            let dz = self.ring_mul(d, z);
            let wz = self.ring_mul(w, z);
            self.lemma_distributive(w, ta, dz);
            // right: (c0 + a ta) + d (ta + w z) = (c0 + a ta) + (d ta + d (w z))
            self.lemma_distributive(d, ta, wz);
            // d ta = w ta - a ta, so a ta + d ta = w ta
            self.lemma_distributive_sub(ta, w, a);
            let wta = self.ring_mul(w, ta);
            let ata = self.ring_mul(a, ta);
            let dta = self.ring_mul(d, ta);
            self.lemma_sub_add_cancel(wta, ata);
            self.lemma_add_comm(dta, ata);
            // w (d z) = d (w z)
            self.lemma_mul_assoc(w, d, z);
            self.lemma_mul_comm(w, d);
            self.lemma_mul_assoc(d, w, z);
            let dwz = self.ring_mul(d, wz);
            // (c0 + a ta) + (d ta + d w z) = c0 + ((a ta + d ta) + d w z)
            self.lemma_add_assoc(c[0], ata, self.ring_add(dta, dwz));
            self.lemma_add_assoc(ata, dta, dwz);
        }
    }

    /// A polynomial with at most `n` coefficients that is zero at `n`
    /// points, the differences of which are units, is zero everywhere.
    pub proof fn lemma_roots(&self, g: Seq<Seq<int>>, xs: Seq<Seq<int>>, n: nat, w: Seq<int>)
        requires
            self.wf(),
            self.all_elements(g),
            self.all_elements(xs),
            g.len() <= n <= xs.len(),
            self.units_between(xs, n),
            forall|k: int| 0 <= k < n ==> #[trigger] self.horner(g, xs[k]) == self.ring_zero(),
            self.contains(w),
        ensures
            self.horner(g, w) == self.ring_zero(),
        decreases n,
    {
        self.lemma_results_are_elements();
        let zero = self.ring_zero();
        if g.len() > 0 {
            let a = xs[n - 1];
            assert(self.contains(a));
            let q = self.quotient_by(g, a);
            self.lemma_factor(g, a, w);
            assert(self.horner(g, a) == zero);
            assert forall|k: int| 0 <= k < n - 1 implies #[trigger] self.horner(q, xs[k])
                == zero by {
                let x = xs[k];
                assert(self.contains(x));
                self.lemma_factor(g, a, x);
                let d = self.ring_sub(x, a);
                let z = self.horner(q, x);
                let dz = self.ring_mul(d, z);
                assert(self.horner(g, x) == zero);
                self.lemma_add_zero(dz);
                assert(dz == zero);
                assert(self.is_ring_unit(self.ring_sub(xs[k], xs[n - 1])));
                let v = choose|v: Seq<int>|
                    self.contains(v) && #[trigger] self.ring_mul(d, v) == self.ring_one();
                // z = 1 z = (v d) z = v (d z) = v 0 = 0
                self.lemma_mul_one(z);
                self.lemma_mul_comm(d, v);
                self.lemma_mul_assoc(v, d, z);
                self.lemma_mul_zero(v);
            }
            assert(self.units_between(xs, (n - 1) as nat));
            self.lemma_roots(q, xs, (n - 1) as nat, w);
            self.lemma_mul_zero(self.ring_sub(w, a));
            self.lemma_add_zero(zero);
        }
    }
}

} // verus!
