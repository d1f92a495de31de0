//! Shamir secret sharing over `R = (Z/mZ)[x] / f(x)`.
//!
//! The dealer hides the secret as the constant term of a polynomial over
//! `R` and hands out its values at points of the exceptional set. The
//! combiner gets the constant term back by Lagrange interpolation at zero.

use crate::error::RingError;
use crate::exceptional::digits_of;
use crate::integer::Int;
use crate::ring::{Element, GaloisRing};
use rand::rngs::StdRng;
use vstd::prelude::*;

verus! {

/// The elements that a sequence holds.
pub open spec fn views(v: Seq<Element>) -> Seq<Seq<int>> {
    Seq::new(v.len(), |i: int| v[i]@)
}

/// The shares that a sequence holds: point and value of each.
pub open spec fn pairs(shares: Seq<(Element, Element)>) -> Seq<(Seq<int>, Seq<int>)> {
    Seq::new(shares.len(), |i: int| (shares[i].0@, shares[i].1@))
}

/// The points of a sequence of shares.
pub open spec fn points(shares: Seq<(Seq<int>, Seq<int>)>) -> Seq<Seq<int>> {
    Seq::new(shares.len(), |i: int| shares[i].0)
}

/// The values of a sequence of shares.
pub open spec fn share_values(shares: Seq<(Seq<int>, Seq<int>)>) -> Seq<Seq<int>> {
    Seq::new(shares.len(), |i: int| shares[i].1)
}

/// Two of the points are the same.
pub open spec fn has_duplicate(xs: Seq<Seq<int>>) -> bool {
    exists|i: int, j: int| 0 <= i < j < xs.len() && xs[i] == xs[j]
}

impl GaloisRing {
    /// Every member of `s` is an element of the ring.
    pub open spec fn all_elements(&self, s: Seq<Seq<int>>) -> bool {
        forall|i: int| 0 <= i < s.len() ==> self.contains(#[trigger] s[i])
    }

    /// The sum of `c[j] * x^j` over `j < n`.
    pub open spec fn eval_sum(&self, c: Seq<Seq<int>>, x: Seq<int>, n: nat) -> Seq<int>
        decreases n,
    {
        if n == 0 {
            self.ring_zero()
        } else {
            self.ring_add(
                self.eval_sum(c, x, (n - 1) as nat),
                self.ring_mul(c[n - 1], self.ring_pow(x, (n - 1) as nat)),
            )
        }
    }

    /// The value at `x` of the polynomial over the ring with the
    /// coefficients `c`, constant term first.
    pub open spec fn eval(&self, c: Seq<Seq<int>>, x: Seq<int>) -> Seq<int> {
        self.eval_sum(c, x, c.len())
    }

    /// What the dealer hands out for the polynomial `c` and `n` parties:
    /// share `i` is the point with number `i + 1` of the exceptional set
    /// and the value of the polynomial there.
    pub open spec fn dealt(&self, c: Seq<Seq<int>>, n: nat) -> Seq<(Seq<int>, Seq<int>)> {
        Seq::new(
            n,
            |i: int| (self.exceptional_point(i + 1), self.eval(c, self.exceptional_point(i + 1))),
        )
    }

    /// The product over `j < n`, `j != i`, of `-x_j / (x_i - x_j)`, or
    /// `ReconstructionDenominatorNotInvertible` where the inverse of a
    /// difference is not found.
    pub open spec fn lagrange_product(&self, xs: Seq<Seq<int>>, i: int, n: nat) -> Result<
        Seq<int>,
        RingError,
    >
        decreases n,
    {
        if n == 0 {
            Ok(self.ring_one())
        } else {
            match self.lagrange_product(xs, i, (n - 1) as nat) {
                Err(e) => Err(e),
                Ok(l) => if n - 1 == i {
                    Ok(l)
                } else {
                    match self.ring_inverse(self.ring_sub(xs[i], xs[n - 1])) {
                        Err(_) => Err(RingError::ReconstructionDenominatorNotInvertible),
                        Ok(inv) => Ok(
                            self.ring_mul(l, self.ring_mul(self.ring_neg(xs[n - 1]), inv)),
                        ),
                    }
                },
            }
        }
    }

    /// The Lagrange coefficient at zero of point `i` among the points `xs`.
    pub open spec fn lagrange_coefficient(&self, xs: Seq<Seq<int>>, i: int) -> Result<
        Seq<int>,
        RingError,
    > {
        self.lagrange_product(xs, i, xs.len())
    }

    /// The sum over `i < n` of `y_i` times the Lagrange coefficient of
    /// point `i`.
    pub open spec fn lagrange_sum(&self, xs: Seq<Seq<int>>, ys: Seq<Seq<int>>, n: nat) -> Result<
        Seq<int>,
        RingError,
    >
        decreases n,
    {
        if n == 0 {
            Ok(self.ring_zero())
        } else {
            match self.lagrange_sum(xs, ys, (n - 1) as nat) {
                Err(e) => Err(e),
                Ok(acc) => match self.lagrange_coefficient(xs, n - 1) {
                    Err(e) => Err(e),
                    Ok(l) => Ok(self.ring_add(acc, self.ring_mul(ys[n - 1], l))),
                },
            }
        }
    }

    /// What the combiner computes from the points `xs` and the values `ys`.
    pub open spec fn reconstruct_spec(&self, xs: Seq<Seq<int>>, ys: Seq<Seq<int>>) -> Result<
        Seq<int>,
        RingError,
    > {
        if xs.len() == 0 {
            Err(RingError::InsufficientShares)
        } else if has_duplicate(xs) {
            Err(RingError::DuplicateEvaluationPoint)
        } else {
            self.lagrange_sum(xs, ys, xs.len())
        }
    }

    /// Zero, one, sums, differences, negations and products are elements.
    pub proof fn lemma_results_are_elements(&self)
        requires
            self.wf(),
        ensures
            self.contains(self.ring_zero()),
            self.contains(self.ring_one()),
            forall|a: Seq<int>, b: Seq<int>| self.contains(#[trigger] self.ring_add(a, b)),
            forall|a: Seq<int>, b: Seq<int>| self.contains(#[trigger] self.ring_sub(a, b)),
            forall|a: Seq<int>| self.contains(#[trigger] self.ring_neg(a)),
            forall|a: Seq<int>, b: Seq<int>| self.contains(#[trigger] self.ring_mul(a, b)),
    {
        let m = self.m();
        self.lemma_pad(Seq::empty());
        self.lemma_pad(seq![1int]);
        assert forall|a: Seq<int>, b: Seq<int>| self.contains(#[trigger] self.ring_add(a, b)) by {
            let r = self.ring_add(a, b);
            assert forall|i: int| 0 <= i < r.len() implies 0 <= #[trigger] r[i] < m by {
                vstd::arithmetic::div_mod::lemma_mod_bound(
                    crate::poly_spec::coef(a, i) + crate::poly_spec::coef(b, i),
                    m,
                );
            }
        }
        assert forall|a: Seq<int>, b: Seq<int>| self.contains(#[trigger] self.ring_sub(a, b)) by {
            let r = self.ring_sub(a, b);
            assert forall|i: int| 0 <= i < r.len() implies 0 <= #[trigger] r[i] < m by {
                vstd::arithmetic::div_mod::lemma_mod_bound(
                    crate::poly_spec::coef(a, i) - crate::poly_spec::coef(b, i),
                    m,
                );
            }
        }
        assert forall|a: Seq<int>| self.contains(#[trigger] self.ring_neg(a)) by {
            let r = self.ring_neg(a);
            assert forall|i: int| 0 <= i < r.len() implies 0 <= #[trigger] r[i] < m by {
                vstd::arithmetic::div_mod::lemma_mod_bound(-crate::poly_spec::coef(a, i), m);
            }
        }
        assert forall|a: Seq<int>, b: Seq<int>| self.contains(#[trigger] self.ring_mul(a, b)) by {
            self.lemma_reduce_is_element(crate::poly_spec::poly_mul(a, b));
        }
    }

    /// A failure among the first factors is the failure of the product.
    proof fn lemma_product_fails(&self, xs: Seq<Seq<int>>, i: int, k: nat, n: nat)
        requires
            k <= n,
            self.lagrange_product(xs, i, k) is Err,
        ensures
            self.lagrange_product(xs, i, n) == Err::<Seq<int>, RingError>(
                RingError::ReconstructionDenominatorNotInvertible,
            ),
        decreases n,
    {
        self.lemma_product_error(xs, i, k);
        if k < n {
            self.lemma_product_fails(xs, i, k, (n - 1) as nat);
        }
    }

    /// A product fails in one way only.
    proof fn lemma_product_error(&self, xs: Seq<Seq<int>>, i: int, n: nat)
        ensures
            self.lagrange_product(xs, i, n) matches Err(e) ==> e
                == RingError::ReconstructionDenominatorNotInvertible,
        decreases n,
    {
        if n > 0 {
            self.lemma_product_error(xs, i, (n - 1) as nat);
        }
    }

    /// A failure among the first terms is the failure of the sum.
    proof fn lemma_sum_fails(&self, xs: Seq<Seq<int>>, ys: Seq<Seq<int>>, k: nat, n: nat)
        requires
            k <= n,
            self.lagrange_sum(xs, ys, k) is Err,
        ensures
            self.lagrange_sum(xs, ys, n) == Err::<Seq<int>, RingError>(
                RingError::ReconstructionDenominatorNotInvertible,
            ),
        decreases n,
    {
        self.lemma_sum_error(xs, ys, k);
        if k < n {
            self.lemma_sum_fails(xs, ys, k, (n - 1) as nat);
        }
    }

    /// A sum fails in one way only.
    proof fn lemma_sum_error(&self, xs: Seq<Seq<int>>, ys: Seq<Seq<int>>, n: nat)
        ensures
            self.lagrange_sum(xs, ys, n) matches Err(e) ==> e
                == RingError::ReconstructionDenominatorNotInvertible,
        decreases n,
    {
        if n > 0 {
            self.lemma_sum_error(xs, ys, (n - 1) as nat);
            self.lemma_product_error(xs, n - 1, xs.len());
        }
    }

    /// An element with coefficients drawn from `[0, m)`.
    pub fn random_ring_element(&self, rng: &mut StdRng) -> (r: Element)
        requires
            self.wf(),
        ensures
            self.contains(r@),
    {
        let d = self.degree();
        let mut out: Vec<Int> = Vec::new();
        let mut i: usize = 0;
        while i < d
            invariant
                i <= d,
                self.wf(),
                d == self.dim(),
                out@.len() == i,
                forall|j: int| 0 <= j < i ==> 0 <= (#[trigger] out@[j])@ < self.m(),
            decreases d - i,
        {
            out.push(Int::random_below(rng, self.modulus()));
            i += 1;
        }
        let r = Element::from_coeffs(out);
        assert forall|j: int| 0 <= j < r@.len() implies 0 <= #[trigger] r@[j] < self.m() by {
            assert(r@[j] == out@[j]@);
        }
        r
    }

    /// The coefficients of a sharing polynomial: the secret, then `t - 1`
    /// random elements.
    pub fn generate_random_polynomial_with_secret(
        &self,
        secret: &Element,
        t: usize,
        rng: &mut StdRng,
    ) -> (r: Vec<Element>)
        requires
            self.wf(),
            self.contains(secret@),
            t >= 1,
        ensures
            r@.len() == t,
            r@[0]@ == secret@,
            self.all_elements(views(r@)),
    {
        let mut out: Vec<Element> = Vec::new();
        out.push(secret.clone());
        let mut i: usize = 1;
        while i < t
            invariant
                1 <= i <= t,
                self.wf(),
                out@.len() == i,
                out@[0]@ == secret@,
                forall|j: int| 0 <= j < i ==> self.contains(#[trigger] out@[j]@),
            decreases t - i,
        {
            out.push(self.random_ring_element(rng));
            i += 1;
        }
        assert forall|j: int| 0 <= j < views(out@).len() implies self.contains(
            #[trigger] views(out@)[j],
        ) by {
            assert(self.contains(out@[j]@));
        }
        out
    }

    /// The value at `point` of the polynomial over the ring with the given
    /// coefficients, constant term first.
    pub fn evaluate_polynomial(&self, point: &Element, coefficients: &Vec<Element>) -> (r: Element)
        requires
            self.wf(),
            self.contains(point@),
            self.all_elements(views(coefficients@)),
        ensures
            r@ == self.eval(views(coefficients@), point@),
            self.contains(r@),
    {
        let ghost c = views(coefficients@);
        let mut acc = self.zero();
        let mut power = self.one();
        let mut j: usize = 0;
        while j < coefficients.len()
            invariant
                j <= coefficients.len(),
                self.wf(),
                self.contains(point@),
                self.all_elements(c),
                c == views(coefficients@),
                self.contains(acc@),
                self.contains(power@),
                power@ == self.ring_pow(point@, j as nat),
                acc@ == self.eval_sum(c, point@, j as nat),
            decreases coefficients.len() - j,
        {
            assert(self.contains(c[j as int]));
            let term = self.mul_ring(&coefficients[j], &power);
            acc = self.add_ring(&acc, &term);
            power = self.mul_ring(&power, point);
            j += 1;
        }
        acc
    }

    /// The values of the sharing polynomial at the points with the numbers
    /// one to `n` of the exceptional set, where `p` is the least prime
    /// factor of the modulus and `d` the degree of the ring.
    fn deal(&self, coefficients: &Vec<Element>, n: usize, p: &Int, d: usize) -> (shares: Vec<
        (Element, Element),
    >)
        requires
            self.wf(),
            self.all_elements(views(coefficients@)),
            p@ == self.residue_prime(),
            d == self.dim(),
            n < self.exceptional_count(),
        ensures
            pairs(shares@) == self.dealt(views(coefficients@), n as nat),
    {
        let ghost c = views(coefficients@);
        proof {
            self.lemma_residue_prime();
        }
        let mut shares: Vec<(Element, Element)> = Vec::new();
        let mut i: usize = 0;
        while i < n
            invariant
                i <= n,
                self.wf(),
                self.all_elements(c),
                c == views(coefficients@),
                p@ == self.residue_prime(),
                p@ >= 2,
                d == self.dim(),
                n < self.exceptional_count(),
                shares@.len() == i,
                forall|k: int|
                    0 <= k < i ==> (#[trigger] shares@[k]).0@ == self.exceptional_point(k + 1)
                        && shares@[k].1@ == self.eval(c, self.exceptional_point(k + 1)),
            decreases n - i,
        {
            proof {
                self.lemma_exceptional_point(i + 1);
            }
            match digits_of(i + 1, p, d) {
                None => {
                    assert(false);
                },
                Some(v) => {
                    let x = Element::from_coeffs(v);
                    let y = self.evaluate_polynomial(&x, coefficients);
                    shares.push((x, y));
                },
            }
            i += 1;
        }
        assert(pairs(shares@) =~= self.dealt(c, n as nat));
        shares
    }

    /// The shares of `number_of_parties` parties for the sharing polynomial
    /// with the given coefficients, whose first is the secret and whose
    /// number is the threshold.
    ///
    /// Fails with `TooManyParties` where the exceptional set has fewer
    /// points apart from zero than there are parties, and else with
    /// `ThresholdOutOfRange` where there is no coefficient or there are more
    /// coefficients than parties.
    pub fn shamir_secret_sharing_non_random(
        &self,
        coefficients: &Vec<Element>,
        number_of_parties: usize,
    ) -> (res: Result<Vec<(Element, Element)>, RingError>)
        requires
            self.wf(),
            self.all_elements(views(coefficients@)),
        ensures
            res matches Ok(shares) ==> {
                &&& 1 <= coefficients@.len() <= number_of_parties < self.exceptional_count()
                &&& pairs(shares@) == self.dealt(views(coefficients@), number_of_parties as nat)
            },
            res matches Err(e) ==> {
                ||| e == RingError::TooManyParties && number_of_parties
                    >= self.exceptional_count()
                ||| e == RingError::ThresholdOutOfRange && number_of_parties
                    < self.exceptional_count() && (coefficients@.len() < 1 || coefficients@.len()
                    > number_of_parties)
            },
    {
        let p = self.characteristic();
        let d = self.degree();
        if digits_of(number_of_parties, &p, d).is_none() {
            return Err(RingError::TooManyParties);
        }
        if coefficients.len() < 1 || coefficients.len() > number_of_parties {
            return Err(RingError::ThresholdOutOfRange);
        }
        Ok(self.deal(coefficients, number_of_parties, &p, d))
    }

    /// The shares of the secret for `number_of_parties` parties, any `t` of
    /// which give the secret back: the dealer draws `t - 1` random elements,
    /// which with the secret are the coefficients of the sharing polynomial.
    ///
    /// Fails with `TooManyParties` where the exceptional set has fewer
    /// points apart from zero than there are parties, and else with
    /// `ThresholdOutOfRange` unless `1 <= t <= number_of_parties`. Nothing
    /// is drawn where it fails.
    pub fn shamir_secret_sharing(
        &self,
        secret: &Element,
        number_of_parties: usize,
        t: usize,
        rng: &mut StdRng,
    ) -> (res: Result<Vec<(Element, Element)>, RingError>)
        requires
            self.wf(),
            self.contains(secret@),
        ensures
            res matches Ok(shares) ==> {
                &&& 1 <= t <= number_of_parties < self.exceptional_count()
                &&& exists|c: Seq<Seq<int>>|
                    {
                        &&& c.len() == t
                        &&& c[0] == secret@
                        &&& self.all_elements(c)
                        &&& pairs(shares@) == #[trigger] self.dealt(c, number_of_parties as nat)
                    }
            },
            res matches Err(e) ==> {
                ||| e == RingError::TooManyParties && number_of_parties
                    >= self.exceptional_count()
                ||| e == RingError::ThresholdOutOfRange && number_of_parties
                    < self.exceptional_count() && (t < 1 || t > number_of_parties)
            },
    {
        let p = self.characteristic();
        let d = self.degree();
        if digits_of(number_of_parties, &p, d).is_none() {
            return Err(RingError::TooManyParties);
        }
        if t < 1 || t > number_of_parties {
            return Err(RingError::ThresholdOutOfRange);
        }
        let coefficients = self.generate_random_polynomial_with_secret(secret, t, rng);
        Ok(self.deal(&coefficients, number_of_parties, &p, d))
    }

    /// The Lagrange coefficient at zero of share `i`.
    fn lagrange_at_zero(&self, shares: &Vec<(Element, Element)>, i: usize) -> (res: Result<
        Element,
        RingError,
    >)
        requires
            self.wf(),
            i < shares@.len(),
            self.all_elements(points(pairs(shares@))),
        ensures
            res matches Ok(l) ==> self.lagrange_coefficient(points(pairs(shares@)), i as int)
                == Ok::<Seq<int>, RingError>(l@) && self.contains(l@),
            res matches Err(e) ==> self.lagrange_coefficient(points(pairs(shares@)), i as int)
                == Err::<Seq<int>, RingError>(e),
    {
        let ghost xs = points(pairs(shares@));
        let n: usize = shares.len();
        let mut l = self.one();
        let mut j: usize = 0;
        while j < n
            invariant
                j <= n,
                n == shares@.len(),
                i < n,
                self.wf(),
                xs == points(pairs(shares@)),
                self.all_elements(xs),
                self.contains(l@),
                self.lagrange_product(xs, i as int, j as nat) == Ok::<Seq<int>, RingError>(l@),
            decreases n - j,
        {
            if j != i {
                assert(self.contains(xs[i as int]) && self.contains(xs[j as int]));
                let numerator = self.neg_ring(&shares[j].0);
                let denominator = self.sub_ring(&shares[i].0, &shares[j].0);
                match self.inverse(&denominator) {
                    Err(_) => {
                        proof {
                            self.lemma_product_fails(xs, i as int, (j + 1) as nat, n as nat);
                        }
                        return Err(RingError::ReconstructionDenominatorNotInvertible);
                    },
                    Ok(inv) => {
                        let fraction = self.mul_ring(&numerator, &inv);
                        l = self.mul_ring(&l, &fraction);
                    },
                }
            }
            j += 1;
        }
        Ok(l)
    }

    /// The secret from a set of shares, by Lagrange interpolation at zero.
    ///
    /// Fails with `InsufficientShares` where no share is given, else with
    /// `DuplicateEvaluationPoint` where two shares have the same point, and
    /// else with `ReconstructionDenominatorNotInvertible` where the inverse
    /// of the difference of two points is not found.
    pub fn reconstruct_secret(&self, shares: &Vec<(Element, Element)>) -> (res: Result<
        Element,
        RingError,
    >)
        requires
            self.wf(),
            self.all_elements(points(pairs(shares@))),
            self.all_elements(share_values(pairs(shares@))),
        ensures
            res matches Ok(s) ==> self.reconstruct_spec(
                points(pairs(shares@)),
                share_values(pairs(shares@)),
            ) == Ok::<Seq<int>, RingError>(s@) && self.contains(s@),
            res matches Err(e) ==> self.reconstruct_spec(
                points(pairs(shares@)),
                share_values(pairs(shares@)),
            ) == Err::<Seq<int>, RingError>(e),
    {
        let ghost xs = points(pairs(shares@));
        let ghost ys = share_values(pairs(shares@));
        let n: usize = shares.len();
        if n == 0 {
            return Err(RingError::InsufficientShares);
        }
        // No point may occur twice.
        let mut a: usize = 0;
        while a < n
            invariant
                a <= n,
                n == shares@.len(),
                xs == points(pairs(shares@)),
                forall|i: int, j: int| 0 <= i < j < n && j < a ==> xs[i] != xs[j],
            decreases n - a,
        {
            let mut b: usize = 0;
            while b < a
                invariant
                    b <= a,
                    a < n,
                    n == shares@.len(),
                    xs == points(pairs(shares@)),
                    forall|i: int| 0 <= i < b ==> xs[i] != xs[a as int],
                decreases a - b,
            {
                if shares[b].0 == shares[a].0 {
                    assert(xs[b as int] == xs[a as int]);
                    assert(has_duplicate(xs));
                    return Err(RingError::DuplicateEvaluationPoint);
                }
                b += 1;
            }
            a += 1;
        }
        assert(!has_duplicate(xs));
        let mut acc = self.zero();
        let mut i: usize = 0;
        while i < n
            invariant
                i <= n,
                n == shares@.len(),
                self.wf(),
                xs == points(pairs(shares@)),
                ys == share_values(pairs(shares@)),
                self.all_elements(xs),
                self.all_elements(ys),
                !has_duplicate(xs),
                self.contains(acc@),
                self.lagrange_sum(xs, ys, i as nat) == Ok::<Seq<int>, RingError>(acc@),
            decreases n - i,
        {
            match self.lagrange_at_zero(shares, i) {
                Err(e) => {
                    proof {
                        self.lemma_product_error(xs, i as int, xs.len());
                        assert(self.lagrange_sum(xs, ys, i as nat) is Ok);
                        assert(self.lagrange_coefficient(xs, (i + 1) - 1) is Err);
                        assert(self.lagrange_sum(xs, ys, (i + 1) as nat) is Err);
                        self.lemma_sum_fails(xs, ys, (i + 1) as nat, n as nat);
                        assert(xs.len() == n);
                    }
                    return Err(e);
                },
                Ok(l) => {
                    assert(self.contains(ys[i as int]));
                    let term = self.mul_ring(&shares[i].1, &l);
                    acc = self.add_ring(&acc, &term);
                },
            }
            i += 1;
        }
        Ok(acc)
    }

    /// The secret from a set of shares where at least `t` shares are given,
    /// and `InsufficientShares` where fewer are.
    pub fn reconstruct_with_threshold(&self, shares: &Vec<(Element, Element)>, t: usize) -> (res:
        Result<Element, RingError>)
        requires
            self.wf(),
            self.all_elements(points(pairs(shares@))),
            self.all_elements(share_values(pairs(shares@))),
        ensures
            shares@.len() < t ==> res == Err::<Element, RingError>(RingError::InsufficientShares),
            shares@.len() >= t ==> (res matches Ok(s) ==> self.reconstruct_spec(
                points(pairs(shares@)),
                share_values(pairs(shares@)),
            ) == Ok::<Seq<int>, RingError>(s@) && self.contains(s@)),
            shares@.len() >= t ==> (res matches Err(e) ==> self.reconstruct_spec(
                points(pairs(shares@)),
                share_values(pairs(shares@)),
            ) == Err::<Seq<int>, RingError>(e)),
    {
        if shares.len() < t {
            return Err(RingError::InsufficientShares);
        }
        self.reconstruct_secret(shares)
    }
}

} // verus!
