//! The exceptional set of `R = (Z/mZ)[x] / f(x)`: the elements whose
//! coefficients all lie in `[0, p)`, where `p` is the least prime factor of
//! `m`. For `m` a power of `p` and `f` irreducible modulo `p`, the
//! difference of any two of them is a unit of `R`.
//!
//! The elements are numbered: the coefficients of element `i` are the `d`
//! digits of `i` in base `p`, least significant first.

use crate::integer::Int;
use crate::modint::divides;
use crate::polynomial::values;
use crate::ring::{Element, GaloisRing};
use vstd::arithmetic::div_mod::{
    lemma_basic_div, lemma_div_denominator, lemma_div_non_zero, lemma_div_pos_is_pos,
    lemma_fundamental_div_mod, lemma_mod_bound, lemma_mod_multiples_basic,
};
use vstd::arithmetic::mul::lemma_mul_is_commutative;
use vstd::arithmetic::power::{lemma_pow0, lemma_pow_positive, pow};
use vstd::prelude::*;

verus! {

/// `p` is the least factor of `m` above one. It is a prime.
pub open spec fn is_least_factor(p: int, m: int) -> bool {
    &&& 2 <= p <= m
    &&& divides(p, m)
    &&& forall|d: int| 2 <= d < p ==> !#[trigger] divides(d, m)
}

/// The least factor of `m` above one.
pub open spec fn least_factor(m: int) -> int
    recommends
        m >= 2,
{
    choose|p: int| is_least_factor(p, m)
}

/// There is one least factor.
pub proof fn lemma_least_factor(p: int, m: int)
    requires
        is_least_factor(p, m),
    ensures
        least_factor(m) == p,
{
    let q = least_factor(m);
    if q < p {
        assert(!divides(q, m));
    }
    if p < q {
        assert(!divides(p, m));
    }
}

/// The `d` digits of `i` in base `p`, least significant first.
pub open spec fn digits(i: int, p: int, d: nat) -> Seq<int> {
    Seq::new(d, |j: int| (i / pow(p, j as nat)) % p)
}

/// A number that no `d` with `2 <= d < c` divides, where `c * c` is above
/// it, is its own least factor.
proof fn lemma_no_small_factor(m: int, c: int)
    requires
        m >= 2,
        c >= 2,
        c * c > m,
        forall|d: int| 2 <= d < c ==> !#[trigger] divides(d, m),
    ensures
        is_least_factor(m, m),
{
    vstd::arithmetic::div_mod::lemma_mod_self_0(m);
    assert forall|d: int| 2 <= d < m implies !#[trigger] divides(d, m) by {
        if divides(d, m) {
            let e = m / d;
            lemma_fundamental_div_mod(m, d);
            assert(m == d * e);
            if e < 2 {
                if e <= 0 {
                    assert(d * e <= 0) by (nonlinear_arith)
                        requires
                            d > 0,
                            e <= 0,
                    ;
                } else {
                    assert(d * 1 == d);
                }
                assert(false);
            }
            lemma_mul_is_commutative(d, e);
            lemma_mod_multiples_basic(d, e);
            assert(divides(e, m));
            if d >= c {
                if e >= c {
                    assert(d * e >= c * c) by (nonlinear_arith)
                        requires
                            d >= c,
                            e >= c,
                            c >= 2,
                    ;
                }
                assert(!divides(e, m));
            }
        }
    }
}

/// The least factor above one of `m`, by trial division.
pub fn smallest_factor(m: &Int) -> (p: Int)
    requires
        m@ >= 2,
    ensures
        is_least_factor(p@, m@),
        p@ == least_factor(m@),
{
    let one = Int::from_i64(1);
    let mut c = Int::from_i64(2);
    loop
        invariant
            m@ >= 2,
            one@ == 1,
            2 <= c@ <= m@,
            forall|d: int| 2 <= d < c@ ==> !#[trigger] divides(d, m@),
        decreases m@ - c@,
    {
        let square = c.times(&c);
        if m.lt(&square) {
            proof {
                lemma_no_small_factor(m@, c@);
                lemma_least_factor(m@, m@);
            }
            return m.clone();
        }
        if m.modulo(&c).is_zero() {
            proof {
                lemma_least_factor(c@, m@);
            }
            return c;
        }
        proof {
            // c * c <= m and c does not divide m, so c < m.
            if c@ == m@ {
                vstd::arithmetic::div_mod::lemma_mod_self_0(m@);
            }
        }
        c = c.plus(&one);
    }
}

/// The digits of `index` in base `p`, or `None` where `index` has more
/// than `d` digits.
pub fn digits_of(index: usize, p: &Int, d: usize) -> (r: Option<Vec<Int>>)
    requires
        p@ >= 2,
    ensures
        r is Some <==> index < pow(p@, d as nat),
        r matches Some(v) ==> values(v@) == digits(index as int, p@, d as nat),
{
    let ghost base = p@;
    let ghost i = index as int;
    let mut value = Int::from_u64(index as u64);
    let mut out: Vec<Int> = Vec::new();
    let mut j: usize = 0;
    proof {
        lemma_pow0(base);
    }
    while j < d
        invariant
            j <= d,
            base == p@,
            base >= 2,
            i == index,
            value@ == i / pow(base, j as nat),
            value@ >= 0,
            out@.len() == j,
            forall|k: int| 0 <= k < j ==> out@[k]@ == (i / pow(base, k as nat)) % base,
        decreases d - j,
    {
        out.push(value.modulo(p));
        let next = value.div_floor(p);
        proof {
            lemma_pow_positive(base, j as nat);
            lemma_div_denominator(i, pow(base, j as nat), base);
            assert(pow(base, (j + 1) as nat) == base * pow(base, j as nat)) by {
                vstd::arithmetic::power::lemma_pow_adds(base, 1, j as nat);
                vstd::arithmetic::power::lemma_pow1(base);
            }
            lemma_mul_is_commutative(base, pow(base, j as nat));
            lemma_div_pos_is_pos(value@, base);
        }
        value = next;
        j += 1;
    }
    proof {
        lemma_pow_positive(base, d as nat);
        if i < pow(base, d as nat) {
            lemma_basic_div(i, pow(base, d as nat));
        } else {
            lemma_div_non_zero(i, pow(base, d as nat));
        }
    }
    if value.is_zero() {
        assert(values(out@) =~= digits(i, base, d as nat));
        Some(out)
    } else {
        None
    }
}

impl GaloisRing {
    /// The least prime factor `p` of the modulus.
    pub open spec fn residue_prime(&self) -> int {
        least_factor(self.m())
    }

    /// The number of elements in the exceptional set: `p^d`.
    pub open spec fn exceptional_count(&self) -> int {
        pow(self.residue_prime(), self.dim())
    }

    /// Element `i` of the exceptional set.
    pub open spec fn exceptional_point(&self, i: int) -> Seq<int> {
        digits(i, self.residue_prime(), self.dim())
    }

    /// The points of the exceptional set are elements of the ring.
    pub proof fn lemma_exceptional_point(&self, i: int)
        requires
            self.wf(),
            i >= 0,
        ensures
            self.contains(self.exceptional_point(i)),
    {
        let p = self.residue_prime();
        let e = self.exceptional_point(i);
        self.lemma_residue_prime();
        assert forall|j: int| 0 <= j < e.len() implies 0 <= #[trigger] e[j] < self.m() by {
            lemma_mod_bound(i / pow(p, j as nat), p);
        }
    }

    /// The modulus of a ring has a least factor above one.
    pub proof fn lemma_residue_prime(&self)
        requires
            self.wf(),
        ensures
            is_least_factor(self.residue_prime(), self.m()),
    {
        lemma_has_least_factor(self.m(), self.m());
    }

    /// The least prime factor of the modulus.
    pub fn characteristic(&self) -> (p: Int)
        requires
            self.wf(),
        ensures
            p@ == self.residue_prime(),
            is_least_factor(p@, self.m()),
    {
        smallest_factor(self.modulus())
    }

    /// Element `index` of the exceptional set, or `None` where the set has
    /// no such element: where `index >= p^d`.
    pub fn exceptional_element(&self, index: usize) -> (r: Option<Element>)
        requires
            self.wf(),
        ensures
            r is Some <==> index < self.exceptional_count(),
            r matches Some(e) ==> e@ == self.exceptional_point(index as int) && self.contains(e@),
    {
        let p = self.characteristic();
        let d = self.degree();
        proof {
            self.lemma_exceptional_point(index as int);
        }
        match digits_of(index, &p, d) {
            None => None,
            Some(v) => Some(Element::from_coeffs(v)),
        }
    }

    /// The exceptional set: its `p^d` elements in the order of their
    /// numbers, the zero element first.
    pub fn generate_exceptional_set(&self) -> (r: Vec<Element>)
        requires
            self.wf(),
        ensures
            r@.len() == self.exceptional_count(),
            forall|i: int|
                0 <= i < r@.len() ==> #[trigger] r@[i]@ == self.exceptional_point(i)
                    && self.contains(r@[i]@),
    {
        let p = self.characteristic();
        let d = self.degree();
        let mut out: Vec<Element> = Vec::new();
        proof {
            lemma_pow_positive(p@, d as nat);
        }
        loop
            invariant
                self.wf(),
                p@ == self.residue_prime(),
                p@ >= 2,
                d == self.dim(),
                out@.len() <= self.exceptional_count(),
                forall|i: int|
                    0 <= i < out@.len() ==> #[trigger] out@[i]@ == self.exceptional_point(i)
                        && self.contains(out@[i]@),
            ensures
                out@.len() == self.exceptional_count(),
                forall|i: int|
                    0 <= i < out@.len() ==> #[trigger] out@[i]@ == self.exceptional_point(i)
                        && self.contains(out@[i]@),
            decreases self.exceptional_count() - out@.len(),
        {
            let index: usize = out.len();
            proof {
                self.lemma_exceptional_point(index as int);
            }
            match digits_of(index, &p, d) {
                None => {
                    break ;
                },
                Some(v) => {
                    out.push(Element::from_coeffs(v));
                },
            }
        }
        out
    }
}

/// A number from two up has a least factor above one: the search from `c`
/// down finds it.
proof fn lemma_has_least_factor(m: int, c: int)
    requires
        m >= 2,
        2 <= c <= m,
        divides(c, m),
    ensures
        is_least_factor(least_factor(m), m),
    decreases c,
{
    if forall|d: int| 2 <= d < c ==> !#[trigger] divides(d, m) {
        assert(is_least_factor(c, m));
    } else {
        let d = choose|d: int| 2 <= d < c && #[trigger] divides(d, m);
        lemma_has_least_factor(m, d);
    }
}

} // verus!
