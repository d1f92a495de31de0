//! Inversion in `R = (Z/mZ)[x] / f(x)` by the extended Euclidean algorithm
//! on `f` and the element.

use crate::division::{
    division_holds, lemma_division, lemma_divrem_of_class, lemma_prod_cong_right,
    lemma_rem_add_multiple, lemma_rem_of_short, poly_divrem,
};
use crate::error::RingError;
use crate::euclid::{bezout_holds, extended_euclidean, lemma_euclid, poly_euclid};
use crate::modint::{inverse_of, is_inverse, lemma_cong_mul, lemma_cong_sub, mod_inverse};
use crate::poly_spec::{
    coef, congruent, lemma_normal_of_normal, lemma_poly_mul_coef, lemma_prod_associates,
    lemma_prod_commutes, lemma_prod_scale_left, lemma_prod_scale_right, lemma_reduce,
    lemma_row_sum_add_left, lemma_row_sum_add_right, lemma_row_sum_beyond, poly_add, poly_mul,
    poly_scale, poly_sub, prod_coef,
};
use crate::ring::{Element, GaloisRing};
use vstd::arithmetic::div_mod::lemma_small_mod;
use vstd::arithmetic::mul::{lemma_mul_is_commutative, lemma_mul_is_distributive_sub};
use vstd::prelude::*;

verus! {

/// The product of `e` and the inverse is one plus a multiple of `f`: the
/// step from Bezout's identity `g = u * f + v * e`, with `g` the constant
/// `c` and `ci` its inverse, to `e * inv = 1 + k * f` over `Z/mZ`.
proof fn lemma_inverse_product(
    f: Seq<int>,
    e: Seq<int>,
    g: Seq<int>,
    u: Seq<int>,
    v: Seq<int>,
    ci: int,
    q1: Seq<int>,
    it: Seq<int>,
    inv: Seq<int>,
    m: int,
)
    requires
        m >= 2,
        bezout_holds(f, e, g, u, v, m),
        g.len() == 1,
        is_inverse(g[0], ci, m),
        division_holds(poly_scale(ci, v), f, q1, it, m),
        crate::poly_spec::same_poly(inv, it),
    ensures
        ({
            let kk = poly_sub(Seq::empty(), poly_add(poly_scale(ci, u), poly_mul(e, q1)));
            forall|k: int|
                #![trigger coef(poly_mul(e, inv), k)]
                coef(poly_mul(e, inv), k) % m == (coef(seq![1int], k) + prod_coef(kk, f, k)) % m
        }),
{
    let w = poly_scale(ci, v);
    let qf = poly_mul(q1, f);
    let x = poly_sub(w, qf);
    let su = poly_scale(ci, u);
    let eq = poly_mul(e, q1);
    let a = poly_add(su, eq);
    let none = Seq::<int>::empty();
    let kk = poly_sub(none, a);
    let one = seq![1int];
    // inv = w - q1 * f over Z/mZ
    assert(congruent(inv, x, m)) by {
        assert forall|j: int|
            #![trigger coef(inv, j)]
            #![trigger coef(x, j)]
            coef(inv, j) % m == coef(x, j) % m by {
            lemma_poly_mul_coef(q1, f, j);
            assert(coef(inv, j) == coef(it, j));
            assert(coef(w, j) % m == (prod_coef(q1, f, j) + coef(it, j)) % m);
            lemma_cong_sub(
                coef(w, j),
                prod_coef(q1, f, j) + coef(it, j),
                prod_coef(q1, f, j),
                prod_coef(q1, f, j),
                m,
            );
        }
    }
    assert forall|k: int|
        #![trigger coef(poly_mul(e, inv), k)]
        coef(poly_mul(e, inv), k) % m == (coef(one, k) + prod_coef(kk, f, k)) % m by {
        lemma_poly_mul_coef(e, inv, k);
        lemma_prod_cong_right(e, inv, x, k, m);
        // e * x = e * w - e * (q1 * f)
        assert forall|i: int| 0 <= i < e.len() implies #[trigger] coef(w, k - i) == coef(
            x,
            k - i,
        ) + coef(qf, k - i) by {}
        lemma_row_sum_add_right(e, w, x, qf, k, e.len() as int);
        lemma_prod_associates(e, q1, f, k);
        let eqf = prod_coef(eq, f, k);
        assert(prod_coef(e, qf, k) == eqf);
        // e * w = ci * (v * e)
        lemma_prod_scale_right(e, v, ci, k);
        lemma_prod_commutes(e, v, k);
        let ve = prod_coef(v, e, k);
        let uf = prod_coef(u, f, k);
        assert(prod_coef(e, x, k) == ci * ve - eqf);
        // Bezout: v * e = g - u * f
        assert(coef(g, k) % m == (uf + ve) % m);
        lemma_cong_sub(uf + ve, coef(g, k), uf, uf, m);
        assert(ve % m == (coef(g, k) - uf) % m);
        lemma_cong_mul(ci, ci, ve, coef(g, k) - uf, m);
        lemma_mul_is_distributive_sub(ci, coef(g, k), uf);
        // ci * g = 1
        assert((ci * coef(g, k)) % m == coef(one, k) % m) by {
            if k == 0 {
                lemma_mul_is_commutative(ci, g[0]);
                lemma_small_mod(1, m as nat);
            } else {
                assert(ci * 0 == 0);
            }
        }
        let suf = prod_coef(su, f, k);
        lemma_prod_scale_left(u, f, ci, k);
        assert(suf == ci * uf);
        lemma_cong_sub(ci * coef(g, k), coef(one, k), suf, suf, m);
        assert((ci * ve) % m == (coef(one, k) - suf) % m);
        // k * f = -(su + eq) * f
        let n = a.len() as int;
        assert forall|i: int| 0 <= i < n implies #[trigger] coef(a, i) == coef(su, i) + coef(
            eq,
            i,
        ) by {}
        lemma_row_sum_add_left(a, su, eq, f, k, n);
        lemma_row_sum_beyond(su, f, k, n);
        lemma_row_sum_beyond(eq, f, k, n);
        assert(prod_coef(a, f, k) == suf + eqf);
        assert forall|i: int| 0 <= i < n implies #[trigger] coef(none, i) == coef(kk, i) + coef(
            a,
            i,
        ) by {}
        lemma_row_sum_add_left(none, kk, a, f, k, n);
        lemma_row_sum_beyond(kk, f, k, n);
        lemma_row_sum_beyond(none, f, k, n);
        assert(prod_coef(kk, f, k) == -(suf + eqf));
        lemma_cong_sub(ci * ve, coef(one, k) - suf, eqf, eqf, m);
    }
}

impl GaloisRing {
    /// The inverse law: where the inverse of the element `e` is found, the
    /// product of `e` and its inverse is one.
    pub proof fn lemma_inverse_is_inverse(&self, e: Seq<int>)
        requires
            self.wf(),
            self.contains(e),
        ensures
            self.ring_inverse(e) matches Ok(inv) ==> self.contains(inv) && self.ring_mul(e, inv)
                == self.ring_one(),
    {
        let m = self.m();
        let f = self.f();
        if let Ok(inv) = self.ring_inverse(e) {
            let (g, u, v) = poly_euclid(f, e, m).unwrap();
            let ci = inverse_of(g[0], m);
            let w = poly_scale(ci, v);
            let (q1, it) = poly_divrem(w, f, m);
            lemma_euclid(f, e, m);
            lemma_normal_of_normal(f, m);
            lemma_division(w, f, m);
            self.lemma_reduce_is_element(w);
            lemma_inverse_product(f, e, g, u, v, ci, q1, it, inv, m);
            let kk = poly_sub(Seq::empty(), poly_add(poly_scale(ci, u), poly_mul(e, q1)));
            let one = seq![1int];
            lemma_rem_add_multiple(poly_mul(e, inv), one, kk, f, m);
            lemma_rem_of_short(one, f, m);
        }
    }

    /// The inverse of `e`, with the reason where none is found:
    /// `NotInvertible` where the Euclidean algorithm on `f` and `e` meets a
    /// remainder whose leading coefficient is no unit, `ZeroDivisorInRing`
    /// where it ends with a polynomial that is no constant unit.
    pub fn inverse(&self, e: &Element) -> (res: Result<Element, RingError>)
        requires
            self.wf(),
            self.contains(e@),
        ensures
            res matches Ok(inv) ==> {
                &&& self.ring_inverse(e@) == Ok::<Seq<int>, RingError>(inv@)
                &&& self.contains(inv@)
                &&& self.ring_mul(e@, inv@) == self.ring_one()
            },
            res matches Err(err) ==> self.ring_inverse(e@) == Err::<Seq<int>, RingError>(err),
    {
        proof {
            self.lemma_inverse_is_inverse(e@);
        }
        let ep = e.to_polynomial();
        let modulus = self.modulus();
        match extended_euclidean(self.irreducible(), &ep, modulus) {
            Err(_) => Err(RingError::NotInvertible),
            Ok((g, _, v)) => {
                if g.coeffs.len() != 1 {
                    return Err(RingError::ZeroDivisorInRing);
                }
                match mod_inverse(g.coeffs[0].clone(), modulus) {
                    None => Err(RingError::ZeroDivisorInRing),
                    Some(ci) => {
                        let w = v.scale(&ci, modulus);
                        proof {
                            let ws = poly_scale(ci@, v@);
                            lemma_reduce(ws, self.m());
                            lemma_divrem_of_class(w@, ws, self.f(), self.f(), self.m());
                        }
                        Ok(self.element(&w))
                    },
                }
            },
        }
    }

    /// The inverse of `e`, or `None` where the Euclidean algorithm on `f`
    /// and `e` finds none.
    pub fn find_inverse_in_galois_ring(&self, e: &Element) -> (res: Option<Element>)
        requires
            self.wf(),
            self.contains(e@),
        ensures
            res is Some <==> self.ring_inverse(e@) is Ok,
            res matches Some(inv) ==> {
                &&& self.ring_inverse(e@) == Ok::<Seq<int>, RingError>(inv@)
                &&& self.contains(inv@)
                &&& self.ring_mul(e@, inv@) == self.ring_one()
            },
    {
        match self.inverse(e) {
            Ok(inv) => Some(inv),
            Err(_) => None,
        }
    }
}

} // verus!
