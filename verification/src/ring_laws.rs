//! The laws of a commutative ring, for `R = (Z/mZ)[x] / f(x)`.

use crate::division::{
    has_unit_lead, lemma_division, lemma_prod_cong_left, lemma_prod_same_left,
    lemma_rem_add_multiple, poly_divrem, poly_rem,
};
use crate::modint::{lemma_cong_add, lemma_cong_sub};
use crate::poly_spec::{
    coef, lemma_normal_of_normal, lemma_poly_mul_coef, lemma_prod_associates, lemma_prod_commutes,
    lemma_row_sum_add_left, lemma_row_sum_add_right, lemma_row_sum_beyond, longer, poly_add,
    poly_mul, poly_sub, prod_coef, row_sum,
};
use crate::ring::GaloisRing;
use vstd::arithmetic::div_mod::{
    lemma_add_mod_noop_right, lemma_mod_twice, lemma_small_mod, lemma_sub_mod_noop,
};
use vstd::prelude::*;

verus! {

impl GaloisRing {
    /// The quotient of the polynomial `p` by `f`.
    pub open spec fn quotient(&self, p: Seq<int>) -> Seq<int> {
        poly_divrem(p, self.f(), self.m()).0
    }

    /// The defining polynomial can be divided by.
    pub proof fn lemma_f_divides(&self)
        requires
            self.wf(),
        ensures
            has_unit_lead(self.f(), self.m()),
            crate::poly_spec::normal(self.f(), self.m()) == self.f(),
    {
        lemma_normal_of_normal(self.f(), self.m());
    }

    /// A polynomial is what it reduces to plus a multiple of `f`.
    pub proof fn lemma_reduce_witness(&self, p: Seq<int>)
        requires
            self.wf(),
        ensures
            forall|k: int|
                #![trigger coef(p, k)]
                coef(p, k) % self.m() == (coef(self.ring_reduce(p), k) + prod_coef(
                    self.quotient(p),
                    self.f(),
                    k,
                )) % self.m(),
            self.contains(self.ring_reduce(p)),
    {
        self.lemma_f_divides();
        lemma_division(p, self.f(), self.m());
        self.lemma_reduce_is_element(p);
        let r = poly_rem(p, self.f(), self.m());
        assert forall|k: int| #![trigger coef(p, k)] coef(p, k) % self.m() == (coef(
            self.ring_reduce(p),
            k,
        ) + prod_coef(self.quotient(p), self.f(), k)) % self.m() by {
            assert(coef(self.ring_reduce(p), k) == coef(r, k));
        }
    }

    /// Polynomials that differ by a multiple of `f` over `Z/mZ` reduce to
    /// the same element.
    pub proof fn lemma_reduce_add_multiple(&self, p: Seq<int>, pb: Seq<int>, kk: Seq<int>)
        requires
            self.wf(),
            forall|k: int|
                #![trigger coef(p, k)]
                coef(p, k) % self.m() == (coef(pb, k) + prod_coef(kk, self.f(), k)) % self.m(),
        ensures
            self.ring_reduce(p) == self.ring_reduce(pb),
    {
        self.lemma_f_divides();
        lemma_rem_add_multiple(p, pb, kk, self.f(), self.m());
    }

    /// Polynomials of the same class over `Z/mZ` reduce to the same
    /// element.
    pub proof fn lemma_reduce_of_class(&self, p: Seq<int>, pb: Seq<int>)
        requires
            self.wf(),
            forall|k: int| #![trigger coef(p, k)] coef(p, k) % self.m() == coef(pb, k) % self.m(),
        ensures
            self.ring_reduce(p) == self.ring_reduce(pb),
    {
        let none = Seq::<int>::empty();
        assert forall|k: int| #![trigger coef(p, k)] coef(p, k) % self.m() == (coef(pb, k)
            + prod_coef(none, self.f(), k)) % self.m() by {
            assert(prod_coef(none, self.f(), k) == 0);
        }
        self.lemma_reduce_add_multiple(p, pb, none);
    }

    /// The product with `c` of polynomials that differ by a multiple of `f`
    /// over `Z/mZ` is the same element.
    pub proof fn lemma_mul_respects(&self, p: Seq<int>, pb: Seq<int>, kk: Seq<int>, c: Seq<int>)
        requires
            self.wf(),
            forall|k: int|
                #![trigger coef(p, k)]
                coef(p, k) % self.m() == (coef(pb, k) + prod_coef(kk, self.f(), k)) % self.m(),
        ensures
            self.ring_mul(p, c) == self.ring_mul(pb, c),
    {
        let m = self.m();
        let f = self.f();
        let kf = poly_mul(kk, f);
        let sum = poly_add(pb, kf);
        let kc = poly_mul(kk, c);
        assert forall|k: int|
            #![trigger coef(poly_mul(p, c), k)]
            coef(poly_mul(p, c), k) % m == (coef(poly_mul(pb, c), k) + prod_coef(kc, f, k))
                % m by {
            lemma_poly_mul_coef(p, c, k);
            lemma_poly_mul_coef(pb, c, k);
            // p = pb + kk * f, so p * c = pb * c + (kk * f) * c
            assert(crate::poly_spec::congruent(p, sum, m)) by {
                assert forall|j: int|
                    #![trigger coef(p, j)]
                    #![trigger coef(sum, j)]
                    coef(p, j) % m == coef(sum, j) % m by {
                    lemma_poly_mul_coef(kk, f, j);
                }
            }
            lemma_prod_cong_left(p, sum, c, k, m);
            let n = longer(sum.len(), longer(pb.len(), kf.len())) as int;
            assert forall|i: int| 0 <= i < n implies #[trigger] coef(sum, i) == coef(pb, i)
                + coef(kf, i) by {}
            lemma_row_sum_add_left(sum, pb, kf, c, k, n);
            lemma_row_sum_beyond(sum, c, k, n);
            lemma_row_sum_beyond(pb, c, k, n);
            lemma_row_sum_beyond(kf, c, k, n);
            // (kk * f) * c = kk * (f * c) = kk * (c * f) = (kk * c) * f
            lemma_prod_associates(kk, f, c, k);
            lemma_prod_associates(kk, c, f, k);
            let fc = poly_mul(f, c);
            let cf = poly_mul(c, f);
            assert forall|i: int| 0 <= i < kk.len() implies #[trigger] coef(fc, k - i) == coef(
                cf,
                k - i,
            ) + coef(Seq::<int>::empty(), k - i) by {
                lemma_poly_mul_coef(f, c, k - i);
                lemma_poly_mul_coef(c, f, k - i);
                lemma_prod_commutes(f, c, k - i);
            }
            lemma_row_sum_add_right(kk, fc, cf, Seq::<int>::empty(), k, kk.len() as int);
            crate::poly_spec::lemma_row_sum_zero_right(
                kk,
                Seq::<int>::empty(),
                k,
                kk.len() as int,
            );
            assert(prod_coef(kf, c, k) == prod_coef(kc, f, k));
        }
        self.lemma_reduce_add_multiple(poly_mul(p, c), poly_mul(pb, c), kc);
    }

    /// `a + b = b + a`.
    pub proof fn lemma_add_comm(&self, a: Seq<int>, b: Seq<int>)
        ensures
            self.ring_add(a, b) == self.ring_add(b, a),
    {
        assert(self.ring_add(a, b) =~= self.ring_add(b, a));
    }

    /// `(a + b) + c = a + (b + c)`.
    pub proof fn lemma_add_assoc(&self, a: Seq<int>, b: Seq<int>, c: Seq<int>)
        requires
            self.wf(),
        ensures
            self.ring_add(self.ring_add(a, b), c) == self.ring_add(a, self.ring_add(b, c)),
    {
        let m = self.m();
        let l = self.ring_add(self.ring_add(a, b), c);
        let r = self.ring_add(a, self.ring_add(b, c));
        assert forall|i: int| 0 <= i < self.dim() implies l[i] == r[i] by {
            lemma_add_mod_noop_right(coef(c, i), coef(a, i) + coef(b, i), m);
            lemma_add_mod_noop_right(coef(a, i), coef(b, i) + coef(c, i), m);
        }
        assert(l =~= r);
    }

    /// `a + 0 = a`.
    pub proof fn lemma_add_zero(&self, a: Seq<int>)
        requires
            self.wf(),
            self.contains(a),
        ensures
            self.ring_add(a, self.ring_zero()) == a,
            self.ring_add(self.ring_zero(), a) == a,
    {
        let m = self.m();
        assert forall|i: int| 0 <= i < self.dim() implies self.ring_add(a, self.ring_zero())[i]
            == a[i] by {
            assert(0 <= a[i] < m);
            lemma_small_mod(a[i] as nat, m as nat);
        }
        assert(self.ring_add(a, self.ring_zero()) =~= a);
        self.lemma_add_comm(a, self.ring_zero());
    }

    /// `a - a = 0`.
    pub proof fn lemma_sub_self(&self, a: Seq<int>)
        requires
            self.wf(),
        ensures
            self.ring_sub(a, a) == self.ring_zero(),
    {
        let m = self.m();
        assert forall|i: int| 0 <= i < self.dim() implies self.ring_sub(a, a)[i]
            == self.ring_zero()[i] by {
            lemma_small_mod(0, m as nat);
        }
        assert(self.ring_sub(a, a) =~= self.ring_zero());
    }

    /// `(a - b) + b = a`.
    pub proof fn lemma_sub_add_cancel(&self, a: Seq<int>, b: Seq<int>)
        requires
            self.wf(),
            self.contains(a),
            b.len() <= self.dim(),
        ensures
            self.ring_add(self.ring_sub(a, b), b) == a,
    {
        let m = self.m();
        let l = self.ring_add(self.ring_sub(a, b), b);
        assert forall|i: int| 0 <= i < self.dim() implies l[i] == a[i] by {
            lemma_add_mod_noop_right(coef(b, i), coef(a, i) - coef(b, i), m);
            assert(0 <= a[i] < m);
            lemma_small_mod(a[i] as nat, m as nat);
        }
        assert(l =~= a);
    }

    /// `(a + b) - b = a`.
    pub proof fn lemma_add_sub_cancel(&self, a: Seq<int>, b: Seq<int>)
        requires
            self.wf(),
            self.contains(a),
            b.len() <= self.dim(),
        ensures
            self.ring_sub(self.ring_add(a, b), b) == a,
    {
        let m = self.m();
        let l = self.ring_sub(self.ring_add(a, b), b);
        assert forall|i: int| 0 <= i < self.dim() implies l[i] == a[i] by {
            lemma_sub_mod_noop(coef(a, i) + coef(b, i), coef(b, i), m);
            lemma_mod_twice(coef(a, i) + coef(b, i), m);
            lemma_sub_mod_noop(coef(a, i) + coef(b, i), coef(b, i), m);
            lemma_cong_sub(
                (coef(a, i) + coef(b, i)) % m,
                coef(a, i) + coef(b, i),
                coef(b, i),
                coef(b, i),
                m,
            );
            assert(0 <= a[i] < m);
            lemma_small_mod(a[i] as nat, m as nat);
        }
        assert(l =~= a);
    }

    /// `a * b = b * a`.
    pub proof fn lemma_mul_comm(&self, a: Seq<int>, b: Seq<int>)
        requires
            self.wf(),
        ensures
            self.ring_mul(a, b) == self.ring_mul(b, a),
    {
        let ab = poly_mul(a, b);
        let ba = poly_mul(b, a);
        assert forall|k: int| #![trigger coef(ab, k)] coef(ab, k) % self.m() == coef(ba, k)
            % self.m() by {
            lemma_poly_mul_coef(a, b, k);
            lemma_poly_mul_coef(b, a, k);
            lemma_prod_commutes(a, b, k);
        }
        self.lemma_reduce_of_class(ab, ba);
    }

    /// `(a * b) * c = a * (b * c)`.
    pub proof fn lemma_mul_assoc(&self, a: Seq<int>, b: Seq<int>, c: Seq<int>)
        requires
            self.wf(),
        ensures
            self.ring_mul(self.ring_mul(a, b), c) == self.ring_mul(a, self.ring_mul(b, c)),
    {
        let m = self.m();
        let ab = poly_mul(a, b);
        let bc = poly_mul(b, c);
        // (a * b) * c reduces as the product of the three polynomials does.
        self.lemma_mul_of_reduced(ab, c);
        // And so does a * (b * c) = (b * c) * a.
        self.lemma_mul_comm(a, self.ring_mul(b, c));
        self.lemma_mul_of_reduced(bc, a);
        let l = poly_mul(ab, c);
        let r = poly_mul(bc, a);
        assert forall|k: int| #![trigger coef(l, k)] coef(l, k) % m == coef(r, k) % m by {
            lemma_poly_mul_coef(ab, c, k);
            lemma_poly_mul_coef(bc, a, k);
            lemma_prod_associates(a, b, c, k);
            lemma_prod_commutes(a, bc, k);
        }
        self.lemma_reduce_of_class(l, r);
    }

    /// The product of a reduced polynomial is the product of the
    /// polynomial: `reduce(p) * c = reduce(p * c)`.
    pub proof fn lemma_mul_of_reduced(&self, p: Seq<int>, c: Seq<int>)
        requires
            self.wf(),
        ensures
            self.ring_mul(self.ring_reduce(p), c) == self.ring_mul(p, c),
    {
        let m = self.m();
        let f = self.f();
        let r = self.ring_reduce(p);
        let q = self.quotient(p);
        let kk = poly_sub(Seq::empty(), q);
        self.lemma_reduce_witness(p);
        assert forall|k: int| #![trigger coef(r, k)] coef(r, k) % m == (coef(p, k) + prod_coef(
            kk,
            f,
            k,
        )) % m by {
            let n = longer(q.len(), kk.len()) as int;
            let none = Seq::<int>::empty();
            assert forall|i: int| 0 <= i < n implies #[trigger] coef(none, i) == coef(kk, i)
                + coef(q, i) by {}
            lemma_row_sum_add_left(none, kk, q, f, k, n);
            lemma_row_sum_beyond(none, f, k, n);
            lemma_row_sum_beyond(kk, f, k, n);
            lemma_row_sum_beyond(q, f, k, n);
            let x = prod_coef(q, f, k);
            assert(prod_coef(kk, f, k) == -x);
            assert(coef(p, k) % m == (coef(r, k) + x) % m);
            lemma_cong_sub(coef(p, k), coef(r, k) + x, x, x, m);
        }
        self.lemma_mul_respects(r, p, kk, c);
    }

    /// `a * 1 = a`.
    pub proof fn lemma_mul_one(&self, a: Seq<int>)
        requires
            self.wf(),
            self.contains(a),
        ensures
            self.ring_mul(a, self.ring_one()) == a,
            self.ring_mul(self.ring_one(), a) == a,
    {
        let m = self.m();
        let one = self.ring_one();
        let p = poly_mul(one, a);
        assert forall|k: int| #![trigger coef(p, k)] coef(p, k) % m == coef(a, k) % m by {
            lemma_poly_mul_coef(one, a, k);
            let unit = seq![1int];
            assert(crate::poly_spec::same_poly(one, unit));
            lemma_prod_same_left(one, unit, a, k);
            assert(row_sum(unit, a, k, 0) == 0);
            assert(1 * coef(a, k) == coef(a, k));
        }
        self.lemma_reduce_of_class(p, a);
        self.lemma_reduce_of_element(a);
        self.lemma_mul_comm(a, one);
    }

    /// `a * 0 = 0`.
    pub proof fn lemma_mul_zero(&self, a: Seq<int>)
        requires
            self.wf(),
        ensures
            self.ring_mul(a, self.ring_zero()) == self.ring_zero(),
            self.ring_mul(self.ring_zero(), a) == self.ring_zero(),
    {
        let m = self.m();
        let zero = self.ring_zero();
        let p = poly_mul(zero, a);
        assert forall|k: int| #![trigger coef(p, k)] coef(p, k) % m == coef(zero, k) % m by {
            lemma_poly_mul_coef(zero, a, k);
            assert forall|i: int| 0 <= i < zero.len() implies #[trigger] coef(zero, i) == 0 by {}
            crate::poly_spec::lemma_row_sum_zero_left(zero, a, k, zero.len() as int);
        }
        self.lemma_reduce_of_class(p, zero);
        self.lemma_pad(Seq::empty());
        self.lemma_reduce_of_element(zero);
        self.lemma_mul_comm(a, zero);
    }

    /// `(b + c) * a = b * a + c * a` and `a * (b + c) = a * b + a * c`.
    pub proof fn lemma_distributive(&self, a: Seq<int>, b: Seq<int>, c: Seq<int>)
        requires
            self.wf(),
            b.len() <= self.dim(),
            c.len() <= self.dim(),
        ensures
            self.ring_mul(self.ring_add(b, c), a) == self.ring_add(
                self.ring_mul(b, a),
                self.ring_mul(c, a),
            ),
            self.ring_mul(a, self.ring_add(b, c)) == self.ring_add(
                self.ring_mul(a, b),
                self.ring_mul(a, c),
            ),
    {
        let m = self.m();
        let f = self.f();
        let s = self.ring_add(b, c);
        let ps = poly_add(b, c);
        let none = Seq::<int>::empty();
        // (b + c) * a reduces as the product of the polynomials b + c and a.
        assert forall|k: int| #![trigger coef(s, k)] coef(s, k) % m == (coef(ps, k) + prod_coef(
            none,
            f,
            k,
        )) % m by {
            assert(prod_coef(none, f, k) == 0);
            if 0 <= k < self.dim() {
                lemma_mod_twice(coef(b, k) + coef(c, k), m);
            }
        }
        self.lemma_mul_respects(s, ps, none, a);
        let ba = poly_mul(b, a);
        let ca = poly_mul(c, a);
        let r1 = self.ring_reduce(ba);
        let r2 = self.ring_reduce(ca);
        let q1 = self.quotient(ba);
        let q2 = self.quotient(ca);
        self.lemma_reduce_witness(ba);
        self.lemma_reduce_witness(ca);
        let t = self.ring_add(r1, r2);
        let kk = poly_add(q1, q2);
        let x = poly_mul(ps, a);
        // x = t + (q1 + q2) * f
        assert forall|k: int| #![trigger coef(x, k)] coef(x, k) % m == (coef(t, k) + prod_coef(
            kk,
            f,
            k,
        )) % m by {
            lemma_poly_mul_coef(ps, a, k);
            lemma_poly_mul_coef(b, a, k);
            lemma_poly_mul_coef(c, a, k);
            let n = ps.len() as int;
            assert forall|i: int| 0 <= i < n implies #[trigger] coef(ps, i) == coef(b, i) + coef(
                c,
                i,
            ) by {}
            lemma_row_sum_add_left(ps, b, c, a, k, n);
            lemma_row_sum_beyond(b, a, k, n);
            lemma_row_sum_beyond(c, a, k, n);
            let nk = kk.len() as int;
            assert forall|i: int| 0 <= i < nk implies #[trigger] coef(kk, i) == coef(q1, i)
                + coef(q2, i) by {}
            lemma_row_sum_add_left(kk, q1, q2, f, k, nk);
            lemma_row_sum_beyond(q1, f, k, nk);
            lemma_row_sum_beyond(q2, f, k, nk);
            let y1 = prod_coef(q1, f, k);
            let y2 = prod_coef(q2, f, k);
            assert(coef(ba, k) % m == (coef(r1, k) + y1) % m);
            assert(coef(ca, k) % m == (coef(r2, k) + y2) % m);
            lemma_cong_add(coef(ba, k), coef(r1, k) + y1, coef(ca, k), coef(r2, k) + y2, m);
            assert(coef(t, k) % m == (coef(r1, k) + coef(r2, k)) % m) by {
                if 0 <= k < self.dim() {
                    lemma_mod_twice(coef(r1, k) + coef(r2, k), m);
                }
            }
            lemma_cong_add(coef(t, k), coef(r1, k) + coef(r2, k), y1 + y2, y1 + y2, m);
        }
        self.lemma_reduce_add_multiple(x, t, kk);
        assert(self.contains(t)) by {
            assert forall|i: int| 0 <= i < t.len() implies 0 <= #[trigger] t[i] < m by {
                vstd::arithmetic::div_mod::lemma_mod_bound(coef(r1, i) + coef(r2, i), m);
            }
        }
        self.lemma_reduce_of_element(t);
        self.lemma_mul_comm(a, s);
        self.lemma_mul_comm(a, b);
        self.lemma_mul_comm(a, c);
    }

    /// `(b - c) * a = b * a - c * a`.
    pub proof fn lemma_distributive_sub(&self, a: Seq<int>, b: Seq<int>, c: Seq<int>)
        requires
            self.wf(),
            self.contains(b),
            self.contains(c),
        ensures
            self.ring_mul(self.ring_sub(b, c), a) == self.ring_sub(
                self.ring_mul(b, a),
                self.ring_mul(c, a),
            ),
    {
        // ((b - c) + c) * a = (b - c) * a + c * a
        let d = self.ring_sub(b, c);
        self.lemma_sub_add_cancel(b, c);
        self.lemma_distributive(a, d, c);
        self.lemma_reduce_is_element(poly_mul(d, a));
        self.lemma_reduce_is_element(poly_mul(c, a));
        self.lemma_add_sub_cancel(self.ring_mul(d, a), self.ring_mul(c, a));
    }
}

} // verus!
