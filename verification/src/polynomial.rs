//! Dense polynomials with coefficients in `Z/mZ`.
//!
//! A `Polynomial` stores its coefficients constant term first. It may store
//! zeros at the top and coefficients outside `[0, m)`; every operation here
//! returns coefficients in `[0, m)`.

use crate::integer::Int;
use crate::modint::{add_mod, mul_mod, sub_mod};
use crate::poly_spec::{
    coef, lemma_trim, longer, poly_add, poly_mul, poly_scale, poly_sub, reduce, row_sum, same_poly,
    trim,
};
use vstd::arithmetic::div_mod::{lemma_add_mod_noop_right, lemma_small_mod};
use vstd::prelude::*;

verus! {

/// The values of a sequence of integers.
pub open spec fn values(v: Seq<Int>) -> Seq<int> {
    Seq::new(v.len(), |i: int| v[i]@)
}

/// Every stored coefficient is zero.
pub open spec fn is_zero_poly(p: Seq<int>) -> bool {
    forall|i: int| 0 <= i < p.len() ==> #[trigger] p[i] == 0
}

/// A polynomial: `coeffs[i]` is the coefficient of `x^i`.
#[derive(Debug)]
pub struct Polynomial {
    pub coeffs: Vec<Int>,
}

impl View for Polynomial {
    type V = Seq<int>;

    open spec fn view(&self) -> Seq<int> {
        values(self.coeffs@)
    }
}

/// The trimming of `p` has length `n` where `p` is zero from `n` on and not
/// zero just below.
pub proof fn lemma_trim_len(p: Seq<int>, n: int)
    requires
        0 <= n <= p.len(),
        forall|i: int| n <= i < p.len() ==> #[trigger] p[i] == 0,
        n > 0 ==> p[n - 1] != 0,
    ensures
        trim(p) == p.take(n),
    decreases p.len(),
{
    if n == p.len() {
        assert(p.take(n) =~= p);
    } else {
        assert(p.last() == 0);
        let d = p.drop_last();
        assert forall|i: int| n <= i < d.len() implies #[trigger] d[i] == 0 by {
            assert(p[i] == 0);
        }
        lemma_trim_len(d, n);
        assert(d.take(n) =~= p.take(n));
    }
}

/// Two sequences are the same polynomial exactly when their trimmings are
/// equal.
pub proof fn lemma_same_poly_trim(p: Seq<int>, q: Seq<int>)
    ensures
        same_poly(p, q) <==> trim(p) == trim(q),
{
    lemma_trim(p);
    lemma_trim(q);
    let a = trim(p);
    let b = trim(q);
    if same_poly(p, q) {
        assert forall|i: int| coef(a, i) == coef(b, i) by {
            assert(coef(a, i) == coef(p, i));
            assert(coef(b, i) == coef(q, i));
        }
        if a.len() < b.len() {
            assert(coef(a, b.len() - 1) == coef(b, b.len() - 1));
        }
        if b.len() < a.len() {
            assert(coef(a, a.len() - 1) == coef(b, a.len() - 1));
        }
        assert forall|i: int| 0 <= i < a.len() implies a[i] == b[i] by {
            assert(coef(a, i) == coef(b, i));
        }
        assert(a =~= b);
    }
    if a == b {
        assert forall|i: int| coef(p, i) == coef(q, i) by {
            assert(coef(a, i) == coef(p, i));
            assert(coef(b, i) == coef(q, i));
        }
    }
}

/// A sequence is zero everywhere exactly when its trimming is empty.
pub proof fn lemma_zero_poly_trim(p: Seq<int>)
    ensures
        is_zero_poly(p) <==> trim(p).len() == 0,
{
    lemma_trim(p);
    if trim(p).len() == 0 {
        assert forall|i: int| 0 <= i < p.len() implies #[trigger] p[i] == 0 by {}
    }
    if is_zero_poly(p) {
        if trim(p).len() > 0 {
            let t = trim(p);
            assert(t[t.len() - 1] == p[t.len() - 1]);
        }
    }
}

impl Clone for Polynomial {
    fn clone(&self) -> (r: Self)
        ensures
            r@ == self@,
    {
        let mut out: Vec<Int> = Vec::new();
        let mut i: usize = 0;
        while i < self.coeffs.len()
            invariant
                i <= self.coeffs.len(),
                out@.len() == i,
                forall|j: int| 0 <= j < i ==> out@[j]@ == self.coeffs@[j]@,
            decreases self.coeffs.len() - i,
        {
            out.push(self.coeffs[i].clone());
            i += 1;
        }
        assert(values(out@) =~= self@);
        Polynomial { coeffs: out }
    }
}

impl PartialEq for Polynomial {
    fn eq(&self, other: &Self) -> (r: bool) {
        let n: usize = if self.coeffs.len() >= other.coeffs.len() {
            self.coeffs.len()
        } else {
            other.coeffs.len()
        };
        let zero = Int::zero();
        let mut i: usize = 0;
        while i < n
            invariant
                i <= n,
                n == longer(self@.len(), other@.len()),
                zero@ == 0,
                forall|j: int| 0 <= j < i ==> coef(self@, j) == coef(other@, j),
            decreases n - i,
        {
            let a = if i < self.coeffs.len() {
                &self.coeffs[i]
            } else {
                &zero
            };
            let b = if i < other.coeffs.len() {
                &other.coeffs[i]
            } else {
                &zero
            };
            if !(a == b) {
                proof {
                    assert(coef(self@, i as int) != coef(other@, i as int));
                    lemma_same_poly_trim(self@, other@);
                }
                return false;
            }
            i += 1;
        }
        proof {
            assert(same_poly(self@, other@));
            lemma_same_poly_trim(self@, other@);
        }
        true
    }
}

impl vstd::std_specs::cmp::PartialEqSpecImpl for Polynomial {
    open spec fn obeys_eq_spec() -> bool {
        true
    }

    open spec fn eq_spec(&self, other: &Self) -> bool {
        trim(self@) == trim(other@)
    }
}

impl Polynomial {
    /// The polynomial with the given coefficients, constant term first.
    pub fn new(coeffs: Vec<Int>) -> (r: Self)
        ensures
            r.coeffs == coeffs,
    {
        Polynomial { coeffs }
    }

    /// The polynomial with the given small coefficients, constant term first.
    pub fn from_i64s(coeffs: &Vec<i64>) -> (r: Self)
        ensures
            r@.len() == coeffs@.len(),
            forall|i: int| 0 <= i < coeffs@.len() ==> r@[i] == coeffs@[i],
    {
        let mut out: Vec<Int> = Vec::new();
        let mut i: usize = 0;
        while i < coeffs.len()
            invariant
                i <= coeffs.len(),
                out@.len() == i,
                forall|j: int| 0 <= j < i ==> out@[j]@ == coeffs@[j],
            decreases coeffs.len() - i,
        {
            out.push(Int::from_i64(coeffs[i]));
            i += 1;
        }
        Polynomial { coeffs: out }
    }

    /// The number of stored coefficients that remain when the zeros at the
    /// top are left out.
    fn trimmed_len(&self) -> (n: usize)
        ensures
            n <= self.coeffs.len(),
            n == trim(self@).len(),
            trim(self@) == self@.take(n as int),
    {
        let mut n: usize = self.coeffs.len();
        while n > 0 && self.coeffs[n - 1].is_zero()
            invariant
                n <= self.coeffs.len(),
                forall|i: int| n <= i < self@.len() ==> #[trigger] self@[i] == 0,
            decreases n,
        {
            n -= 1;
        }
        proof {
            lemma_trim_len(self@, n as int);
        }
        n
    }

    /// The index of the highest coefficient that is not zero, or `None` for
    /// the zero polynomial.
    pub fn degree(&self) -> (r: Option<usize>)
        ensures
            r is None <==> crate::poly_spec::degree(self@) == -1,
            r matches Some(d) ==> d == crate::poly_spec::degree(self@),
    {
        let n = self.trimmed_len();
        if n == 0 {
            None
        } else {
            Some(n - 1)
        }
    }

    /// Whether every coefficient is zero.
    pub fn is_zero(&self) -> (r: bool)
        ensures
            r == is_zero_poly(self@),
    {
        proof {
            lemma_zero_poly_trim(self@);
        }
        self.trimmed_len() == 0
    }

    /// Removes the zeros stored at the top.
    pub fn trim(&mut self)
        ensures
            final(self)@ == trim(old(self)@),
    {
        let n = self.trimmed_len();
        self.coeffs.truncate(n);
        proof {
            assert(self.coeffs@ == old(self).coeffs@.subrange(0, n as int));
            assert(self@.len() == n);
            assert forall|i: int| 0 <= i < n implies self@[i] == old(self)@.take(n as int)[i] by {
                assert(self.coeffs@[i] == old(self).coeffs@[i]);
            }
            assert(self@ =~= old(self)@.take(n as int));
        }
    }

    /// A copy without the zeros stored at the top.
    pub fn trimmed_poly(&self) -> (r: Polynomial)
        ensures
            r@ == trim(self@),
    {
        let mut r = self.clone();
        r.trim();
        r
    }

    /// The same polynomial with every coefficient reduced into `[0, m)`.
    pub fn change_ring(&self, modulus: &Int) -> (r: Polynomial)
        requires
            modulus@ > 0,
        ensures
            r@ == reduce(self@, modulus@),
    {
        let mut out: Vec<Int> = Vec::new();
        let mut i: usize = 0;
        while i < self.coeffs.len()
            invariant
                i <= self.coeffs.len(),
                out@.len() == i,
                modulus@ > 0,
                forall|j: int| 0 <= j < i ==> out@[j]@ == self@[j] % modulus@,
            decreases self.coeffs.len() - i,
        {
            out.push(self.coeffs[i].modulo(modulus));
            i += 1;
        }
        assert(values(out@) =~= reduce(self@, modulus@));
        Polynomial { coeffs: out }
    }

    /// The sum, reduced modulo `m`.
    pub fn add(&self, other: &Polynomial, modulus: &Int) -> (r: Polynomial)
        requires
            modulus@ > 0,
        ensures
            r@ == reduce(poly_add(self@, other@), modulus@),
    {
        let n: usize = if self.coeffs.len() >= other.coeffs.len() {
            self.coeffs.len()
        } else {
            other.coeffs.len()
        };
        let zero = Int::zero();
        let mut out: Vec<Int> = Vec::new();
        let mut i: usize = 0;
        while i < n
            invariant
                i <= n,
                n == longer(self@.len(), other@.len()),
                out@.len() == i,
                zero@ == 0,
                modulus@ > 0,
                forall|j: int|
                    0 <= j < i ==> out@[j]@ == (coef(self@, j) + coef(other@, j)) % modulus@,
            decreases n - i,
        {
            let a = if i < self.coeffs.len() {
                &self.coeffs[i]
            } else {
                &zero
            };
            let b = if i < other.coeffs.len() {
                &other.coeffs[i]
            } else {
                &zero
            };
            out.push(add_mod(a, b, modulus));
            i += 1;
        }
        assert(values(out@) =~= reduce(poly_add(self@, other@), modulus@));
        Polynomial { coeffs: out }
    }

    /// The difference, reduced modulo `m`.
    pub fn sub_mod(&self, other: &Polynomial, modulus: &Int) -> (r: Polynomial)
        requires
            modulus@ > 0,
        ensures
            r@ == reduce(poly_sub(self@, other@), modulus@),
    {
        let n: usize = if self.coeffs.len() >= other.coeffs.len() {
            self.coeffs.len()
        } else {
            other.coeffs.len()
        };
        let zero = Int::zero();
        let mut out: Vec<Int> = Vec::new();
        let mut i: usize = 0;
        while i < n
            invariant
                i <= n,
                n == longer(self@.len(), other@.len()),
                out@.len() == i,
                zero@ == 0,
                modulus@ > 0,
                forall|j: int|
                    0 <= j < i ==> out@[j]@ == (coef(self@, j) - coef(other@, j)) % modulus@,
            decreases n - i,
        {
            let a = if i < self.coeffs.len() {
                &self.coeffs[i]
            } else {
                &zero
            };
            let b = if i < other.coeffs.len() {
                &other.coeffs[i]
            } else {
                &zero
            };
            out.push(sub_mod(a, b, modulus));
            i += 1;
        }
        assert(values(out@) =~= reduce(poly_sub(self@, other@), modulus@));
        Polynomial { coeffs: out }
    }

    /// The polynomial times the number `c`, reduced modulo `m`.
    pub fn scale(&self, c: &Int, modulus: &Int) -> (r: Polynomial)
        requires
            modulus@ > 0,
        ensures
            r@ == reduce(poly_scale(c@, self@), modulus@),
    {
        let mut out: Vec<Int> = Vec::new();
        let mut i: usize = 0;
        while i < self.coeffs.len()
            invariant
                i <= self.coeffs.len(),
                out@.len() == i,
                modulus@ > 0,
                forall|j: int| 0 <= j < i ==> out@[j]@ == (c@ * self@[j]) % modulus@,
            decreases self.coeffs.len() - i,
        {
            out.push(mul_mod(c, &self.coeffs[i], modulus));
            i += 1;
        }
        assert(values(out@) =~= reduce(poly_scale(c@, self@), modulus@));
        Polynomial { coeffs: out }
    }

    /// The product by the schoolbook method, reduced modulo `m`. The
    /// product of anything with a polynomial that stores no coefficient
    /// stores none.
    pub fn mul(&self, other: &Polynomial, modulus: &Int) -> (r: Polynomial)
        requires
            modulus@ > 0,
        ensures
            r@ == reduce(poly_mul(self@, other@), modulus@),
    {
        let la: usize = self.coeffs.len();
        let lb: usize = other.coeffs.len();
        if la == 0 || lb == 0 {
            let out: Vec<Int> = Vec::new();
            assert(values(out@) =~= reduce(poly_mul(self@, other@), modulus@));
            return Polynomial { coeffs: out };
        }
        let ghost m = modulus@;
        let ghost p = self@;
        let ghost q = other@;
        // One zero for each coefficient of the product: the vector's own
        // length then is the number of coefficients.
        let mut out: Vec<Int> = Vec::new();
        let mut k: usize = 0;
        while k < la
            invariant
                k <= la,
                out@.len() == k,
                forall|j: int| 0 <= j < out@.len() ==> out@[j]@ == 0,
            decreases la - k,
        {
            out.push(Int::zero());
            k += 1;
        }
        k = 1;
        while k < lb
            invariant
                1 <= k <= lb,
                out@.len() == la + k - 1,
                forall|j: int| 0 <= j < out@.len() ==> out@[j]@ == 0,
            decreases lb - k,
        {
            out.push(Int::zero());
            k += 1;
        }
        let n: usize = out.len();
        proof {
            assert forall|j: int| 0 <= j < n implies out@[j]@ == row_sum(p, q, j, 0) % m by {
                lemma_small_mod(0, m as nat);
            }
        }
        let mut i: usize = 0;
        while i < la
            invariant
                i <= la,
                la == p.len(),
                lb == q.len(),
                lb > 0,
                n == la + lb - 1,
                m == modulus@,
                m > 0,
                p == self@,
                q == other@,
                out@.len() == n,
                forall|j: int| 0 <= j < n ==> out@[j]@ == row_sum(p, q, j, i as int) % m,
            decreases la - i,
        {
            let mut j: usize = 0;
            while j < lb
                invariant
                    i < la,
                    j <= lb,
                    la == p.len(),
                    lb == q.len(),
                    n == la + lb - 1,
                    m == modulus@,
                    m > 0,
                    p == self@,
                    q == other@,
                    out@.len() == n,
                    forall|t: int|
                        0 <= t < n ==> out@[t]@ == (row_sum(p, q, t, i as int) + (if i <= t < i
                            + j {
                            p[i as int] * q[t - i]
                        } else {
                            0
                        })) % m,
                decreases lb - j,
            {
                let prod = self.coeffs[i].times(&other.coeffs[j]);
                let next = add_mod(&out[i + j], &prod, modulus);
                proof {
                    let t = i + j;
                    lemma_add_mod_noop_right(
                        p[i as int] * q[j as int],
                        row_sum(p, q, t, i as int),
                        m,
                    );
                }
                out.set(i + j, next);
                j += 1;
            }
            proof {
                assert forall|t: int| 0 <= t < n implies out@[t]@ == row_sum(
                    p,
                    q,
                    t,
                    i as int + 1,
                ) % m by {
                    if !(i <= t < i + lb) {
                        assert(coef(q, t - i) == 0);
                        assert(p[i as int] * 0 == 0);
                    }
                }
            }
            i += 1;
        }
        assert(values(out@) =~= reduce(poly_mul(self@, other@), modulus@));
        Polynomial { coeffs: out }
    }
}

/// A table of polynomials that are irreducible modulo two, by degree: `x + 1`,
/// `x^2 + x + 1`, `x^3 + x + 1`, `x^4 + x + 1` and `x^5 + x^2 + 1`.
pub open spec fn irreducible_table(degree: int) -> Seq<int> {
    if degree == 1 {
        seq![1int, 1]
    } else if degree == 2 {
        seq![1int, 1, 1]
    } else if degree == 3 {
        seq![1int, 1, 0, 1]
    } else if degree == 4 {
        seq![1int, 1, 0, 0, 1]
    } else {
        seq![1int, 0, 1, 0, 0, 1]
    }
}

/// A polynomial of the given degree that is irreducible modulo two, for the
/// degrees one to five.
pub fn irreducible_polynomial(degree: usize) -> (r: Option<Polynomial>)
    ensures
        r is Some <==> 1 <= degree <= 5,
        r matches Some(p) ==> p@ == irreducible_table(degree as int),
{
    let coeffs: Vec<i64> = if degree == 1 {
        vec![1i64, 1]
    } else if degree == 2 {
        vec![1i64, 1, 1]
    } else if degree == 3 {
        vec![1i64, 1, 0, 1]
    } else if degree == 4 {
        vec![1i64, 1, 0, 0, 1]
    } else if degree == 5 {
        vec![1i64, 0, 1, 0, 0, 1]
    } else {
        return None;
    };
    let p = Polynomial::from_i64s(&coeffs);
    assert(p@ =~= irreducible_table(degree as int));
    Some(p)
}

} // verus!
