//! The ring `R = (Z/mZ)[x] / f(x)`.
//!
//! An element of `R` is stored as exactly `d` coefficients in `[0, m)`,
//! where `d` is the degree of `f`: the one polynomial of degree below `d`
//! in its class. Every operation returns an element in that form.

use crate::division::{
    has_unit_lead, lemma_division, lemma_divrem_of_class, lemma_rem_of_short, poly_rem,
    polynomial_long_division,
};
use crate::error::RingError;
use crate::euclid::poly_euclid;
use crate::integer::Int;
use crate::modint::{add_mod, inverse_of, is_unit, mod_inverse, sub_mod};
use crate::poly_spec::{
    coef, is_canonical, is_trimmed, lemma_normal, lemma_normal_of_normal, lemma_reduce,
    lemma_reduce_of_canonical, lemma_trim, normal, poly_mul, poly_scale, trim,
};
use crate::polynomial::{lemma_trim_len, values, Polynomial};
use vstd::arithmetic::div_mod::lemma_mod_bound;
use vstd::pervasive::unreached;
use vstd::prelude::*;

verus! {

/// The first `d` coefficients of `p`, with zeros where `p` stores none.
pub open spec fn pad(p: Seq<int>, d: nat) -> Seq<int> {
    Seq::new(d, |i: int| coef(p, i))
}

/// The ring `(Z/mZ)[x] / f(x)`.
#[derive(Debug)]
pub struct GaloisRing {
    pub(crate) modulus: Int,
    pub(crate) irreducible: Polynomial,
}

/// An element of a `GaloisRing`.
#[derive(Debug)]
pub struct Element {
    pub(crate) coeffs: Vec<Int>,
}

impl View for Element {
    type V = Seq<int>;

    closed spec fn view(&self) -> Seq<int> {
        values(self.coeffs@)
    }
}

impl Clone for Element {
    fn clone(&self) -> (r: Self)
        ensures
            r@ == self@,
    {
        let p = Polynomial { coeffs: clone_ints(&self.coeffs) };
        Element { coeffs: p.coeffs }
    }
}

impl PartialEq for Element {
    fn eq(&self, other: &Self) -> (r: bool) {
        if self.coeffs.len() != other.coeffs.len() {
            assert(self@.len() != other@.len());
            return false;
        }
        let mut i: usize = 0;
        while i < self.coeffs.len()
            invariant
                i <= self.coeffs.len(),
                self.coeffs.len() == other.coeffs.len(),
                forall|j: int| 0 <= j < i ==> self@[j] == other@[j],
            decreases self.coeffs.len() - i,
        {
            if !(self.coeffs[i] == other.coeffs[i]) {
                assert(self@[i as int] != other@[i as int]);
                return false;
            }
            i += 1;
        }
        assert(self@ =~= other@);
        true
    }
}

impl vstd::std_specs::cmp::PartialEqSpecImpl for Element {
    open spec fn obeys_eq_spec() -> bool {
        true
    }

    open spec fn eq_spec(&self, other: &Self) -> bool {
        self@ == other@
    }
}

/// A copy of a vector of integers.
fn clone_ints(v: &Vec<Int>) -> (r: Vec<Int>)
    ensures
        values(r@) == values(v@),
{
    let mut out: Vec<Int> = Vec::new();
    let mut i: usize = 0;
    while i < v.len()
        invariant
            i <= v.len(),
            out@.len() == i,
            forall|j: int| 0 <= j < i ==> out@[j]@ == v@[j]@,
        decreases v.len() - i,
    {
        out.push(v[i].clone());
        i += 1;
    }
    assert(values(out@) =~= values(v@));
    out
}

impl Element {
    /// The element with the given coefficients.
    pub(crate) fn from_coeffs(coeffs: Vec<Int>) -> (r: Element)
        ensures
            r@ == values(coeffs@),
    {
        Element { coeffs }
    }

    /// The coefficients, constant term first: as many as the ring's
    /// defining polynomial has degrees.
    pub fn coefficients(&self) -> (r: Vec<Int>)
        ensures
            values(r@) == self@,
    {
        clone_ints(&self.coeffs)
    }

    /// The element as a free polynomial.
    pub fn to_polynomial(&self) -> (r: Polynomial)
        ensures
            r@ == self@,
    {
        Polynomial { coeffs: clone_ints(&self.coeffs) }
    }

    /// Whether this is the zero of its ring.
    pub fn is_zero(&self) -> (r: bool)
        ensures
            r == (forall|i: int| 0 <= i < self@.len() ==> self@[i] == 0),
    {
        let mut i: usize = 0;
        while i < self.coeffs.len()
            invariant
                i <= self.coeffs.len(),
                forall|j: int| 0 <= j < i ==> self@[j] == 0,
            decreases self.coeffs.len() - i,
        {
            if !self.coeffs[i].is_zero() {
                assert(self@[i as int] != 0);
                return false;
            }
            i += 1;
        }
        true
    }
}

impl GaloisRing {
    /// The modulus `m`.
    pub closed spec fn m(&self) -> int {
        self.modulus@
    }

    /// The defining polynomial `f`.
    pub closed spec fn f(&self) -> Seq<int> {
        self.irreducible@
    }

    /// The degree `d` of the defining polynomial.
    pub open spec fn dim(&self) -> nat {
        (self.f().len() - 1) as nat
    }

    /// The ring is well formed: `m >= 2`, and `f` is canonical and trimmed,
    /// of degree at least one, with a unit as its leading coefficient.
    pub open spec fn wf(&self) -> bool {
        &&& self.m() >= 2
        &&& is_canonical(self.f(), self.m())
        &&& is_trimmed(self.f())
        &&& self.f().len() >= 2
        &&& is_unit(self.f().last(), self.m())
    }

    /// `e` is an element of this ring in its stored form.
    pub open spec fn contains(&self, e: Seq<int>) -> bool {
        e.len() == self.dim() && is_canonical(e, self.m())
    }

    /// The element that the polynomial `p` stands for.
    pub open spec fn ring_reduce(&self, p: Seq<int>) -> Seq<int> {
        pad(poly_rem(p, self.f(), self.m()), self.dim())
    }

    /// Zero.
    pub open spec fn ring_zero(&self) -> Seq<int> {
        pad(Seq::empty(), self.dim())
    }

    /// One.
    pub open spec fn ring_one(&self) -> Seq<int> {
        pad(seq![1int], self.dim())
    }

    /// `a + b`.
    pub open spec fn ring_add(&self, a: Seq<int>, b: Seq<int>) -> Seq<int> {
        Seq::new(self.dim(), |i: int| (coef(a, i) + coef(b, i)) % self.m())
    }

    /// `a - b`.
    pub open spec fn ring_sub(&self, a: Seq<int>, b: Seq<int>) -> Seq<int> {
        Seq::new(self.dim(), |i: int| (coef(a, i) - coef(b, i)) % self.m())
    }

    /// `-a`.
    pub open spec fn ring_neg(&self, a: Seq<int>) -> Seq<int> {
        Seq::new(self.dim(), |i: int| (-coef(a, i)) % self.m())
    }

    /// `a * b`.
    pub open spec fn ring_mul(&self, a: Seq<int>, b: Seq<int>) -> Seq<int> {
        self.ring_reduce(poly_mul(a, b))
    }

    /// `a^e`, with `a^0 = 1`.
    pub open spec fn ring_pow(&self, a: Seq<int>, e: nat) -> Seq<int>
        decreases e,
    {
        if e == 0 {
            self.ring_one()
        } else {
            self.ring_mul(self.ring_pow(a, (e - 1) as nat), a)
        }
    }

    /// The inverse of `e` as the extended Euclidean algorithm on `f` and
    /// `e` finds it. Where the algorithm gets stuck on a remainder that
    /// cannot be divided by, the result is `NotInvertible`; where it ends
    /// with a polynomial that is no constant unit, `ZeroDivisorInRing`.
    pub open spec fn ring_inverse(&self, e: Seq<int>) -> Result<Seq<int>, RingError> {
        match poly_euclid(self.f(), e, self.m()) {
            None => Err(RingError::NotInvertible),
            Some((g, u, v)) => if g.len() == 1 && is_unit(g[0], self.m()) {
                Ok(self.ring_reduce(poly_scale(inverse_of(g[0], self.m()), v)))
            } else {
                Err(RingError::ZeroDivisorInRing)
            },
        }
    }

    /// Padding a canonical sequence of at most `d` coefficients gives an
    /// element, whose normal form is the trimmed sequence.
    pub proof fn lemma_pad(&self, p: Seq<int>)
        requires
            self.wf(),
            is_canonical(p, self.m()),
            p.len() <= self.dim(),
        ensures
            self.contains(pad(p, self.dim())),
            normal(pad(p, self.dim()), self.m()) == trim(p),
    {
        let e = pad(p, self.dim());
        let m = self.m();
        assert forall|i: int| 0 <= i < e.len() implies 0 <= #[trigger] e[i] < m by {
            if i < p.len() {
                assert(0 <= p[i] < m);
            }
        }
        lemma_reduce_of_canonical(e, m);
        lemma_trim(p);
        let t = trim(p);
        let n = t.len() as int;
        assert forall|i: int| n <= i < e.len() implies #[trigger] e[i] == 0 by {
            if i < p.len() {
                assert(p[i] == 0);
            }
        }
        if n > 0 {
            assert(e[n - 1] == t[n - 1]);
        }
        lemma_trim_len(e, n);
        assert(e.take(n) =~= t) by {
            assert forall|i: int| 0 <= i < n implies e.take(n)[i] == t[i] by {
                assert(t[i] == p[i]);
            }
        }
    }

    /// What a polynomial reduces to is an element.
    pub proof fn lemma_reduce_is_element(&self, p: Seq<int>)
        requires
            self.wf(),
        ensures
            self.contains(self.ring_reduce(p)),
            normal(self.ring_reduce(p), self.m()) == poly_rem(p, self.f(), self.m()),
    {
        let m = self.m();
        lemma_normal_of_normal(self.f(), m);
        lemma_division(p, self.f(), m);
        let r = poly_rem(p, self.f(), m);
        self.lemma_pad(r);
    }

    /// Reducing a second time changes nothing.
    pub proof fn lemma_reduce_idempotent(&self, p: Seq<int>)
        requires
            self.wf(),
        ensures
            self.ring_reduce(self.ring_reduce(p)) == self.ring_reduce(p),
    {
        let m = self.m();
        let e = self.ring_reduce(p);
        let r = poly_rem(p, self.f(), m);
        self.lemma_reduce_is_element(p);
        lemma_normal_of_normal(self.f(), m);
        lemma_division(p, self.f(), m);
        lemma_normal(e, m);
        // The remainder of e is the remainder of its normal form, which is
        // short enough to be its own remainder.
        lemma_divrem_of_class(e, r, self.f(), self.f(), m);
        lemma_rem_of_short(r, self.f(), m);
    }

    /// An element reduces to itself.
    pub proof fn lemma_reduce_of_element(&self, e: Seq<int>)
        requires
            self.wf(),
            self.contains(e),
        ensures
            self.ring_reduce(e) == e,
    {
        let m = self.m();
        lemma_normal_of_normal(self.f(), m);
        lemma_normal(e, m);
        let n = normal(e, m);
        lemma_divrem_of_class(e, n, self.f(), self.f(), m);
        lemma_rem_of_short(n, self.f(), m);
        lemma_reduce_of_canonical(e, m);
        lemma_trim(e);
        assert(pad(n, self.dim()) =~= e) by {
            assert forall|i: int| 0 <= i < e.len() implies pad(n, self.dim())[i] == e[i] by {
                assert(coef(n, i) == coef(e, i));
            }
        }
    }

    /// The ring with modulus `modulus` and defining polynomial
    /// `irreducible`, which is taken modulo `modulus`.
    ///
    /// Fails with `InvalidRingConfiguration` where the modulus is below two
    /// or the polynomial has degree below one, and with `NotInvertible`
    /// where its leading coefficient is no unit. That the polynomial is
    /// irreducible is not checked.
    pub fn new(modulus: Int, irreducible: Polynomial) -> (res: Result<GaloisRing, RingError>)
        ensures
            res matches Ok(ring) ==> {
                &&& ring.wf()
                &&& ring.m() == modulus@
                &&& ring.f() == normal(irreducible@, modulus@)
            },
            res matches Err(e) ==> {
                ||| e == RingError::InvalidRingConfiguration && (modulus@ < 2 || normal(
                    irreducible@,
                    modulus@,
                ).len() < 2)
                ||| e == RingError::NotInvertible && modulus@ >= 2 && normal(
                    irreducible@,
                    modulus@,
                ).len() >= 2 && !has_unit_lead(irreducible@, modulus@)
            },
    {
        let two = Int::from_i64(2);
        if modulus.lt(&two) {
            return Err(RingError::InvalidRingConfiguration);
        }
        let f = irreducible.change_ring(&modulus).trimmed_poly();
        proof {
            lemma_normal(irreducible@, modulus@);
        }
        let n: usize = f.coeffs.len();
        if n < 2 {
            return Err(RingError::InvalidRingConfiguration);
        }
        match mod_inverse(f.coeffs[n - 1].clone(), &modulus) {
            None => Err(RingError::NotInvertible),
            Some(_) => Ok(GaloisRing { modulus, irreducible: f }),
        }
    }

    /// The modulus.
    pub fn modulus(&self) -> (r: &Int)
        ensures
            r@ == self.m(),
    {
        &self.modulus
    }

    /// The defining polynomial.
    pub fn irreducible(&self) -> (r: &Polynomial)
        ensures
            r@ == self.f(),
    {
        &self.irreducible
    }

    /// The degree of the defining polynomial.
    pub fn degree(&self) -> (r: usize)
        requires
            self.wf(),
        ensures
            r == self.dim(),
    {
        self.irreducible.coeffs.len() - 1
    }

    /// Whether `e` is an element of this ring in its stored form: as many
    /// coefficients as `f` has degrees, each in `[0, m)`.
    pub fn is_element(&self, e: &Element) -> (r: bool)
        requires
            self.wf(),
        ensures
            r == self.contains(e@),
    {
        let d: usize = self.irreducible.coeffs.len() - 1;
        if e.coeffs.len() != d {
            return false;
        }
        let mut i: usize = 0;
        while i < d
            invariant
                i <= d,
                d == e@.len(),
                forall|j: int| 0 <= j < i ==> 0 <= #[trigger] e@[j] < self.m(),
            decreases d - i,
        {
            if e.coeffs[i].is_negative() || !e.coeffs[i].lt(&self.modulus) {
                assert(!(0 <= e@[i as int] < self.m()));
                return false;
            }
            i += 1;
        }
        true
    }

    /// The first `d` coefficients of a canonical polynomial of degree below
    /// `d`.
    fn padded(&self, p: &Polynomial) -> (r: Element)
        requires
            self.wf(),
        ensures
            r@ == pad(p@, self.dim()),
    {
        let d: usize = self.irreducible.coeffs.len() - 1;
        let zero = Int::zero();
        let mut out: Vec<Int> = Vec::new();
        let mut i: usize = 0;
        while i < d
            invariant
                i <= d,
                d == self.dim(),
                zero@ == 0,
                out@.len() == i,
                forall|j: int| 0 <= j < i ==> out@[j]@ == coef(p@, j),
            decreases d - i,
        {
            if i < p.coeffs.len() {
                out.push(p.coeffs[i].clone());
            } else {
                out.push(zero.clone());
            }
            i += 1;
        }
        assert(values(out@) =~= pad(p@, self.dim()));
        Element { coeffs: out }
    }

    /// The element that the polynomial `p` stands for: its remainder by `f`
    /// over `Z/mZ`.
    pub fn element(&self, p: &Polynomial) -> (r: Element)
        requires
            self.wf(),
        ensures
            r@ == self.ring_reduce(p@),
            self.contains(r@),
    {
        proof {
            lemma_normal_of_normal(self.f(), self.m());
            self.lemma_reduce_is_element(p@);
        }
        match polynomial_long_division(p, &self.irreducible, &self.modulus) {
            Ok((_, rem)) => self.padded(&rem),
            Err(_) => unreached(),
        }
    }

    /// Zero.
    pub fn zero(&self) -> (r: Element)
        requires
            self.wf(),
        ensures
            r@ == self.ring_zero(),
            self.contains(r@),
    {
        let p = Polynomial::new(Vec::new());
        proof {
            assert(p@ =~= Seq::<int>::empty());
            self.lemma_pad(p@);
        }
        self.padded(&p)
    }

    /// One.
    pub fn one(&self) -> (r: Element)
        requires
            self.wf(),
        ensures
            r@ == self.ring_one(),
            self.contains(r@),
    {
        let p = Polynomial::from_i64s(&vec![1i64]);
        proof {
            assert(p@ =~= seq![1int]);
            self.lemma_pad(p@);
        }
        self.padded(&p)
    }

    /// `a + b`.
    pub fn add_ring(&self, a: &Element, b: &Element) -> (r: Element)
        requires
            self.wf(),
            self.contains(a@),
            self.contains(b@),
        ensures
            r@ == self.ring_add(a@, b@),
            self.contains(r@),
    {
        let d: usize = a.coeffs.len();
        let mut out: Vec<Int> = Vec::new();
        let mut i: usize = 0;
        while i < d
            invariant
                i <= d,
                d == self.dim(),
                d == a@.len(),
                d == b@.len(),
                self.m() >= 2,
                out@.len() == i,
                forall|j: int| 0 <= j < i ==> out@[j]@ == (a@[j] + b@[j]) % self.m(),
            decreases d - i,
        {
            out.push(add_mod(&a.coeffs[i], &b.coeffs[i], &self.modulus));
            i += 1;
        }
        proof {
            assert(values(out@) =~= self.ring_add(a@, b@));
            assert forall|j: int| 0 <= j < d implies 0 <= #[trigger] values(out@)[j]
                < self.m() by {
                lemma_mod_bound(a@[j] + b@[j], self.m());
            }
        }
        Element { coeffs: out }
    }

    /// `a - b`.
    pub fn sub_ring(&self, a: &Element, b: &Element) -> (r: Element)
        requires
            self.wf(),
            self.contains(a@),
            self.contains(b@),
        ensures
            r@ == self.ring_sub(a@, b@),
            self.contains(r@),
    {
        let d: usize = a.coeffs.len();
        let mut out: Vec<Int> = Vec::new();
        let mut i: usize = 0;
        while i < d
            invariant
                i <= d,
                d == self.dim(),
                d == a@.len(),
                d == b@.len(),
                self.m() >= 2,
                out@.len() == i,
                forall|j: int| 0 <= j < i ==> out@[j]@ == (a@[j] - b@[j]) % self.m(),
            decreases d - i,
        {
            out.push(sub_mod(&a.coeffs[i], &b.coeffs[i], &self.modulus));
            i += 1;
        }
        proof {
            assert(values(out@) =~= self.ring_sub(a@, b@));
            assert forall|j: int| 0 <= j < d implies 0 <= #[trigger] values(out@)[j]
                < self.m() by {
                lemma_mod_bound(a@[j] - b@[j], self.m());
            }
        }
        Element { coeffs: out }
    }

    /// `-a`.
    pub fn neg_ring(&self, a: &Element) -> (r: Element)
        requires
            self.wf(),
            self.contains(a@),
        ensures
            r@ == self.ring_neg(a@),
            self.contains(r@),
    {
        let d: usize = a.coeffs.len();
        let mut out: Vec<Int> = Vec::new();
        let mut i: usize = 0;
        while i < d
            invariant
                i <= d,
                d == self.dim(),
                d == a@.len(),
                self.m() >= 2,
                out@.len() == i,
                forall|j: int| 0 <= j < i ==> out@[j]@ == (-a@[j]) % self.m(),
            decreases d - i,
        {
            out.push(crate::modint::neg_mod(&a.coeffs[i], &self.modulus));
            i += 1;
        }
        proof {
            assert(values(out@) =~= self.ring_neg(a@));
            assert forall|j: int| 0 <= j < d implies 0 <= #[trigger] values(out@)[j]
                < self.m() by {
                lemma_mod_bound(-a@[j], self.m());
            }
        }
        Element { coeffs: out }
    }

    /// `a * b`: the product of the two polynomials, reduced by `f`.
    pub fn mul_ring(&self, a: &Element, b: &Element) -> (r: Element)
        requires
            self.wf(),
            self.contains(a@),
            self.contains(b@),
        ensures
            r@ == self.ring_mul(a@, b@),
            self.contains(r@),
    {
        let pa = Polynomial { coeffs: clone_ints(&a.coeffs) };
        let pb = Polynomial { coeffs: clone_ints(&b.coeffs) };
        let prod = pa.mul(&pb, &self.modulus);
        proof {
            lemma_reduce(poly_mul(a@, b@), self.m());
            lemma_divrem_of_class(prod@, poly_mul(a@, b@), self.f(), self.f(), self.m());
        }
        self.element(&prod)
    }

    /// `a^exponent` by repeated multiplication, with `a^0 = 1`.
    pub fn power_in_ring(&self, a: &Element, exponent: usize) -> (r: Element)
        requires
            self.wf(),
            self.contains(a@),
        ensures
            r@ == self.ring_pow(a@, exponent as nat),
            self.contains(r@),
    {
        let mut acc = self.one();
        let mut i: usize = 0;
        while i < exponent
            invariant
                i <= exponent,
                self.wf(),
                self.contains(a@),
                self.contains(acc@),
                acc@ == self.ring_pow(a@, i as nat),
            decreases exponent - i,
        {
            acc = self.mul_ring(&acc, a);
            i += 1;
        }
        acc
    }
}

} // verus!
