//! The mathematical model of polynomials: a polynomial is the sequence of
//! its integer coefficients, constant term first, and stands for the same
//! polynomial with any number of zeros appended. Sums and products are
//! taken over the integers; `congruent` compares two polynomials modulo `m`.

use crate::modint::{lemma_cong_add, lemma_cong_mul};
use vstd::arithmetic::div_mod::*;
use vstd::arithmetic::mul::*;
use vstd::prelude::*;

verus! {

/// The coefficient of `x^i` in `p`: zero outside the stored range.
pub open spec fn coef(p: Seq<int>, i: int) -> int {
    if 0 <= i < p.len() {
        p[i]
    } else {
        0
    }
}

/// `p` and `q` are the same polynomial over the integers.
pub open spec fn same_poly(p: Seq<int>, q: Seq<int>) -> bool {
    forall|i: int| #![trigger coef(p, i)] #![trigger coef(q, i)] coef(p, i) == coef(q, i)
}

/// `p` and `q` are the same polynomial over `Z/mZ`.
pub open spec fn congruent(p: Seq<int>, q: Seq<int>, m: int) -> bool {
    forall|i: int|
        #![trigger coef(p, i)]
        #![trigger coef(q, i)]
        coef(p, i) % m == coef(q, i) % m
}

/// Every stored coefficient lies in `[0, m)`.
pub open spec fn is_canonical(p: Seq<int>, m: int) -> bool {
    forall|i: int| 0 <= i < p.len() ==> 0 <= #[trigger] p[i] < m
}

/// No zero is stored at the top.
pub open spec fn is_trimmed(p: Seq<int>) -> bool {
    p.len() == 0 || p.last() != 0
}

/// `p` without the zeros stored at its top.
pub open spec fn trim(p: Seq<int>) -> Seq<int>
    decreases p.len(),
{
    if p.len() == 0 || p.last() != 0 {
        p
    } else {
        trim(p.drop_last())
    }
}

/// `p` with every coefficient replaced by its representative in `[0, m)`.
pub open spec fn reduce(p: Seq<int>, m: int) -> Seq<int> {
    Seq::new(p.len(), |i: int| p[i] % m)
}

/// The one canonical, trimmed sequence that is congruent to `p`.
pub open spec fn normal(p: Seq<int>, m: int) -> Seq<int> {
    trim(reduce(p, m))
}

/// The degree of `p` over the integers, `-1` for the zero polynomial.
pub open spec fn degree(p: Seq<int>) -> int {
    trim(p).len() - 1
}

/// A sequence of `n` zeros.
pub open spec fn zeros(n: nat) -> Seq<int> {
    Seq::new(n, |i: int| 0int)
}

/// The longer of two lengths.
pub open spec fn longer(a: nat, b: nat) -> nat {
    if a >= b {
        a
    } else {
        b
    }
}

/// `p + q`.
pub open spec fn poly_add(p: Seq<int>, q: Seq<int>) -> Seq<int> {
    Seq::new(longer(p.len(), q.len()), |i: int| coef(p, i) + coef(q, i))
}

/// `p - q`.
pub open spec fn poly_sub(p: Seq<int>, q: Seq<int>) -> Seq<int> {
    Seq::new(longer(p.len(), q.len()), |i: int| coef(p, i) - coef(q, i))
}

/// `c * p`.
pub open spec fn poly_scale(c: int, p: Seq<int>) -> Seq<int> {
    Seq::new(p.len(), |i: int| c * p[i])
}

/// `c * x^k * p`.
pub open spec fn shift_scale(p: Seq<int>, c: int, k: nat) -> Seq<int> {
    Seq::new(k + p.len(), |i: int| c * coef(p, i - k))
}

/// The first `n` terms of the sum that gives the coefficient of `x^k` in
/// `p * q`: the sum of `p[i] * q[k - i]` over `i < n`.
pub open spec fn row_sum(p: Seq<int>, q: Seq<int>, k: int, n: int) -> int
    decreases n,
{
    if n <= 0 {
        0
    } else {
        row_sum(p, q, k, n - 1) + coef(p, n - 1) * coef(q, k - (n - 1))
    }
}

/// The coefficient of `x^k` in `p * q`.
pub open spec fn prod_coef(p: Seq<int>, q: Seq<int>, k: int) -> int {
    row_sum(p, q, k, p.len() as int)
}

/// The number of coefficients stored for a product.
pub open spec fn prod_len(p: Seq<int>, q: Seq<int>) -> nat {
    if p.len() == 0 || q.len() == 0 {
        0
    } else {
        (p.len() + q.len() - 1) as nat
    }
}

/// `p * q`.
pub open spec fn poly_mul(p: Seq<int>, q: Seq<int>) -> Seq<int> {
    Seq::new(prod_len(p, q), |k: int| prod_coef(p, q, k))
}

// ---------------------------------------------------------------------
// Trimming and normal forms
// ---------------------------------------------------------------------
/// Trimming removes only zeros, and leaves no zero at the top.
pub proof fn lemma_trim(p: Seq<int>)
    ensures
        is_trimmed(trim(p)),
        trim(p).len() <= p.len(),
        same_poly(trim(p), p),
        forall|i: int| 0 <= i < trim(p).len() ==> #[trigger] trim(p)[i] == p[i],
        forall|i: int| trim(p).len() <= i < p.len() ==> #[trigger] p[i] == 0,
    decreases p.len(),
{
    if p.len() == 0 || p.last() != 0 {
    } else {
        let d = p.drop_last();
        lemma_trim(d);
        assert forall|i: int| coef(trim(p), i) == coef(p, i) by {
            assert(coef(trim(d), i) == coef(d, i));
        }
        assert forall|i: int| 0 <= i < trim(p).len() implies #[trigger] trim(p)[i] == p[i] by {
            assert(trim(d)[i] == d[i]);
        }
        assert forall|i: int| trim(p).len() <= i < p.len() implies #[trigger] p[i] == 0 by {
            if i < d.len() {
                assert(d[i] == 0);
            }
        }
    }
}

/// Trimming a sequence a second time changes nothing.
pub proof fn lemma_trim_idempotent(p: Seq<int>)
    ensures
        trim(trim(p)) == trim(p),
{
    lemma_trim(p);
}

/// Reducing the coefficients gives a canonical sequence of the same class.
pub proof fn lemma_reduce(p: Seq<int>, m: int)
    requires
        m > 0,
    ensures
        is_canonical(reduce(p, m), m),
        congruent(reduce(p, m), p, m),
        reduce(p, m).len() == p.len(),
{
    assert forall|i: int| 0 <= i < p.len() implies 0 <= #[trigger] reduce(p, m)[i] < m by {
        lemma_mod_bound(p[i], m);
    }
    assert forall|i: int| coef(reduce(p, m), i) % m == coef(p, i) % m by {
        if 0 <= i < p.len() {
            lemma_mod_twice(p[i], m);
        }
    }
}

/// Reducing a canonical sequence changes nothing.
pub proof fn lemma_reduce_of_canonical(p: Seq<int>, m: int)
    requires
        m > 0,
        is_canonical(p, m),
    ensures
        reduce(p, m) == p,
{
    assert forall|i: int| 0 <= i < p.len() implies reduce(p, m)[i] == p[i] by {
        assert(0 <= p[i] < m);
        lemma_small_mod(p[i] as nat, m as nat);
    }
    assert(reduce(p, m) =~= p);
}

/// The normal form is canonical, trimmed and of the same class.
pub proof fn lemma_normal(p: Seq<int>, m: int)
    requires
        m > 0,
    ensures
        is_canonical(normal(p, m), m),
        is_trimmed(normal(p, m)),
        congruent(normal(p, m), p, m),
        normal(p, m).len() <= p.len(),
{
    lemma_reduce(p, m);
    lemma_trim(reduce(p, m));
    let r = reduce(p, m);
    let t = trim(r);
    assert forall|i: int| 0 <= i < t.len() implies 0 <= #[trigger] t[i] < m by {
        assert(t[i] == r[i]);
    }
    assert forall|i: int| coef(t, i) % m == coef(p, i) % m by {
        assert(coef(t, i) == coef(r, i));
        assert(coef(r, i) % m == coef(p, i) % m);
    }
}

/// Two canonical, trimmed sequences of the same class are equal.
pub proof fn lemma_normal_unique(p: Seq<int>, q: Seq<int>, m: int)
    requires
        m > 0,
        is_canonical(p, m),
        is_canonical(q, m),
        is_trimmed(p),
        is_trimmed(q),
        congruent(p, q, m),
    ensures
        p == q,
{
    assert forall|i: int| coef(p, i) == coef(q, i) by {
        assert(coef(p, i) % m == coef(q, i) % m);
        if 0 <= i < p.len() {
            assert(0 <= p[i] < m);
        }
        if 0 <= i < q.len() {
            assert(0 <= q[i] < m);
        }
        lemma_small_mod(coef(p, i) as nat, m as nat);
        lemma_small_mod(coef(q, i) as nat, m as nat);
    }
    if p.len() < q.len() {
        assert(coef(p, q.len() - 1) == coef(q, q.len() - 1));
        assert(false);
    }
    if q.len() < p.len() {
        assert(coef(p, p.len() - 1) == coef(q, p.len() - 1));
        assert(false);
    }
    assert forall|i: int| 0 <= i < p.len() implies p[i] == q[i] by {
        assert(coef(p, i) == coef(q, i));
    }
    assert(p =~= q);
}

/// A canonical, trimmed sequence is its own normal form.
pub proof fn lemma_normal_of_normal(p: Seq<int>, m: int)
    requires
        m > 0,
        is_canonical(p, m),
        is_trimmed(p),
    ensures
        normal(p, m) == p,
{
    lemma_reduce_of_canonical(p, m);
}

/// Sequences of the same class have the same normal form.
pub proof fn lemma_normal_of_class(p: Seq<int>, q: Seq<int>, m: int)
    requires
        m > 0,
        congruent(p, q, m),
    ensures
        normal(p, m) == normal(q, m),
{
    lemma_normal(p, m);
    lemma_normal(q, m);
    let a = normal(p, m);
    let b = normal(q, m);
    assert forall|i: int| coef(a, i) % m == coef(b, i) % m by {
        assert(coef(a, i) % m == coef(p, i) % m);
        assert(coef(b, i) % m == coef(q, i) % m);
        assert(coef(p, i) % m == coef(q, i) % m);
    }
    lemma_normal_unique(a, b, m);
}

// ---------------------------------------------------------------------
// Sums of products
// ---------------------------------------------------------------------
/// Terms past the end of `p` add nothing.
pub proof fn lemma_row_sum_beyond(p: Seq<int>, q: Seq<int>, k: int, n: int)
    requires
        n >= p.len(),
    ensures
        row_sum(p, q, k, n) == prod_coef(p, q, k),
    decreases n,
{
    if n > p.len() {
        lemma_row_sum_beyond(p, q, k, n - 1);
        assert(coef(p, n - 1) == 0);
        assert(0 * coef(q, k - (n - 1)) == 0);
    }
}

/// A sum of products whose left factors are all zero is zero.
pub proof fn lemma_row_sum_zero_left(p: Seq<int>, q: Seq<int>, k: int, n: int)
    requires
        forall|i: int| 0 <= i < n ==> #[trigger] coef(p, i) == 0,
    ensures
        row_sum(p, q, k, n) == 0,
    decreases n,
{
    if n > 0 {
        lemma_row_sum_zero_left(p, q, k, n - 1);
        assert(coef(p, n - 1) == 0);
        assert(0 * coef(q, k - (n - 1)) == 0);
    }
}

/// A sum of products whose right factors are all zero is zero.
pub proof fn lemma_row_sum_zero_right(p: Seq<int>, q: Seq<int>, k: int, n: int)
    requires
        forall|i: int| 0 <= i < n ==> #[trigger] coef(q, k - i) == 0,
    ensures
        row_sum(p, q, k, n) == 0,
    decreases n,
{
    if n > 0 {
        lemma_row_sum_zero_right(p, q, k, n - 1);
        assert(coef(q, k - (n - 1)) == 0);
        assert(coef(p, n - 1) * 0 == 0);
    }
}

/// The sum is additive in its left polynomial.
pub proof fn lemma_row_sum_add_left(
    c: Seq<int>,
    a: Seq<int>,
    b: Seq<int>,
    q: Seq<int>,
    k: int,
    n: int,
)
    requires
        forall|i: int| 0 <= i < n ==> #[trigger] coef(c, i) == coef(a, i) + coef(b, i),
    ensures
        row_sum(c, q, k, n) == row_sum(a, q, k, n) + row_sum(b, q, k, n),
    decreases n,
{
    if n > 0 {
        lemma_row_sum_add_left(c, a, b, q, k, n - 1);
        assert(coef(c, n - 1) == coef(a, n - 1) + coef(b, n - 1));
        lemma_mul_is_distributive_add_other_way(
            coef(q, k - (n - 1)),
            coef(a, n - 1),
            coef(b, n - 1),
        );
    }
}

/// The sum is additive in its right polynomial.
pub proof fn lemma_row_sum_add_right(
    p: Seq<int>,
    c: Seq<int>,
    a: Seq<int>,
    b: Seq<int>,
    k: int,
    n: int,
)
    requires
        forall|i: int| 0 <= i < n ==> #[trigger] coef(c, k - i) == coef(a, k - i) + coef(b, k - i),
    ensures
        row_sum(p, c, k, n) == row_sum(p, a, k, n) + row_sum(p, b, k, n),
    decreases n,
{
    if n > 0 {
        lemma_row_sum_add_right(p, c, a, b, k, n - 1);
        assert(coef(c, k - (n - 1)) == coef(a, k - (n - 1)) + coef(b, k - (n - 1)));
        lemma_mul_is_distributive_add(
            coef(p, n - 1),
            coef(a, k - (n - 1)),
            coef(b, k - (n - 1)),
        );
    }
}

/// The sum depends on its left polynomial modulo `m` only.
pub proof fn lemma_row_sum_cong_left(a: Seq<int>, b: Seq<int>, q: Seq<int>, k: int, n: int, m: int)
    requires
        m > 0,
        forall|i: int| 0 <= i < n ==> #[trigger] coef(a, i) % m == coef(b, i) % m,
    ensures
        row_sum(a, q, k, n) % m == row_sum(b, q, k, n) % m,
    decreases n,
{
    if n > 0 {
        lemma_row_sum_cong_left(a, b, q, k, n - 1, m);
        assert(coef(a, n - 1) % m == coef(b, n - 1) % m);
        let y = coef(q, k - (n - 1));
        lemma_cong_mul(coef(a, n - 1), coef(b, n - 1), y, y, m);
        lemma_cong_add(
            row_sum(a, q, k, n - 1),
            row_sum(b, q, k, n - 1),
            coef(a, n - 1) * y,
            coef(b, n - 1) * y,
            m,
        );
    }
}

/// The sum depends on its right polynomial modulo `m` only.
pub proof fn lemma_row_sum_cong_right(
    p: Seq<int>,
    a: Seq<int>,
    b: Seq<int>,
    k: int,
    n: int,
    m: int,
)
    requires
        m > 0,
        forall|i: int| 0 <= i < n ==> #[trigger] coef(a, k - i) % m == coef(b, k - i) % m,
    ensures
        row_sum(p, a, k, n) % m == row_sum(p, b, k, n) % m,
    decreases n,
{
    if n > 0 {
        lemma_row_sum_cong_right(p, a, b, k, n - 1, m);
        assert(coef(a, k - (n - 1)) % m == coef(b, k - (n - 1)) % m);
        let x = coef(p, n - 1);
        lemma_cong_mul(x, x, coef(a, k - (n - 1)), coef(b, k - (n - 1)), m);
        lemma_cong_add(
            row_sum(p, a, k, n - 1),
            row_sum(p, b, k, n - 1),
            x * coef(a, k - (n - 1)),
            x * coef(b, k - (n - 1)),
            m,
        );
    }
}

/// The product of `c * x^s * q` with `r`: the sum over the shifted, scaled
/// left polynomial is `c` times the sum over `q`, taken `s` places lower.
pub proof fn lemma_row_sum_shift_scale(
    t: Seq<int>,
    q: Seq<int>,
    r: Seq<int>,
    c: int,
    s: int,
    k: int,
    n: int,
)
    requires
        s >= 0,
        n >= 0,
        forall|i: int| #[trigger] coef(t, i) == c * coef(q, i - s),
    ensures
        row_sum(t, r, k, s + n) == c * row_sum(q, r, k - s, n),
    decreases n,
{
    if n == 0 {
        assert forall|i: int| 0 <= i < s implies #[trigger] coef(t, i) == 0 by {
            assert(coef(q, i - s) == 0);
            assert(c * 0 == 0);
        }
        lemma_row_sum_zero_left(t, r, k, s);
        assert(c * 0 == 0);
    } else {
        lemma_row_sum_shift_scale(t, q, r, c, s, k, n - 1);
        let j = n - 1;
        assert(coef(t, s + j) == c * coef(q, j));
        let y = coef(r, k - s - j);
        assert(k - (s + n - 1) == k - s - j);
        lemma_mul_is_associative(c, coef(q, j), y);
        lemma_mul_is_distributive_add(c, row_sum(q, r, k - s, j), coef(q, j) * y);
    }
}

/// A product has no coefficient outside its stored range.
pub proof fn lemma_prod_coef_outside(p: Seq<int>, q: Seq<int>, k: int)
    requires
        k < 0 || k >= prod_len(p, q),
    ensures
        prod_coef(p, q, k) == 0,
{
    assert forall|i: int| 0 <= i < p.len() implies #[trigger] coef(q, k - i) == 0 by {}
    lemma_row_sum_zero_right(p, q, k, p.len() as int);
}

/// The coefficients of the stored product are those of the product.
pub proof fn lemma_poly_mul_coef(p: Seq<int>, q: Seq<int>, k: int)
    ensures
        coef(poly_mul(p, q), k) == prod_coef(p, q, k),
{
    if k < 0 || k >= prod_len(p, q) {
        lemma_prod_coef_outside(p, q, k);
    }
}

/// Multiplication is commutative, coefficient by coefficient.
pub proof fn lemma_prod_commutes(p: Seq<int>, q: Seq<int>, k: int)
    ensures
        prod_coef(p, q, k) == prod_coef(q, p, k),
{
    if k < 0 {
        lemma_prod_coef_outside(p, q, k);
        lemma_prod_coef_outside(q, p, k);
    } else {
        lemma_row_sum_reverse(p, q, k, k + 1);
        // Both sums may stop at k + 1 or at the end of the polynomial.
        lemma_row_sum_clip(p, q, k);
        lemma_row_sum_clip(q, p, k);
    }
}

/// Summing up to `k + 1` gives the whole coefficient of `x^k`.
proof fn lemma_row_sum_clip(p: Seq<int>, q: Seq<int>, k: int)
    requires
        k >= 0,
    ensures
        row_sum(p, q, k, k + 1) == prod_coef(p, q, k),
{
    if k + 1 >= p.len() {
        lemma_row_sum_beyond(p, q, k, k + 1);
    } else {
        lemma_row_sum_tail_zero(p, q, k, p.len() as int);
    }
}

/// Past `k`, the right factors are zero, so the sum stops growing.
proof fn lemma_row_sum_tail_zero(p: Seq<int>, q: Seq<int>, k: int, n: int)
    requires
        k >= 0,
        n >= k + 1,
    ensures
        row_sum(p, q, k, n) == row_sum(p, q, k, k + 1),
    decreases n,
{
    if n > k + 1 {
        lemma_row_sum_tail_zero(p, q, k, n - 1);
        assert(coef(q, k - (n - 1)) == 0);
        assert(coef(p, n - 1) * 0 == 0);
    }
}

/// The sum up to `k + 1` splits into a lower part over `(p, q)` and an
/// upper part that is a sum over `(q, p)`.
proof fn lemma_row_sum_reverse(p: Seq<int>, q: Seq<int>, k: int, n: int)
    requires
        0 <= n <= k + 1,
    ensures
        row_sum(p, q, k, k + 1) == row_sum(p, q, k, k + 1 - n) + row_sum(q, p, k, n),
    decreases n,
{
    if n > 0 {
        lemma_row_sum_reverse(p, q, k, n - 1);
        // row_sum(p, q, k, k + 2 - n) ends with p[k + 1 - n] * q[n - 1].
        assert(k - (k + 2 - n - 1) == n - 1);
        assert(k - (n - 1) == k + 1 - n);
        lemma_mul_is_commutative(coef(p, k + 1 - n), coef(q, n - 1));
    }
}

/// The coefficient of `x^k` in `(c * x^s * q) * r`.
pub proof fn lemma_prod_shift_scale(t: Seq<int>, q: Seq<int>, r: Seq<int>, c: int, s: int, k: int)
    requires
        s >= 0,
        forall|i: int| #[trigger] coef(t, i) == c * coef(q, i - s),
    ensures
        prod_coef(t, r, k) == c * prod_coef(q, r, k - s),
{
    let n = longer(t.len(), (s + q.len()) as nat) as int;
    lemma_row_sum_shift_scale(t, q, r, c, s, k, n - s);
    lemma_row_sum_beyond(t, r, k, n);
    lemma_row_sum_beyond(q, r, k - s, n - s);
}

/// Multiplication is associative, coefficient by coefficient.
pub proof fn lemma_prod_associates(p: Seq<int>, q: Seq<int>, r: Seq<int>, k: int)
    ensures
        prod_coef(poly_mul(p, q), r, k) == prod_coef(p, poly_mul(q, r), k),
{
    let big = p.len() + q.len();
    lemma_assoc_partial(p, q, r, k, p.len() as int);
    let part = partial_mul(p, q, p.len() as int);
    let pq = poly_mul(p, q);
    assert forall|i: int| 0 <= i < big implies #[trigger] coef(part, i) == coef(pq, i) + coef(
        zeros(0),
        i,
    ) by {
        lemma_poly_mul_coef(p, q, i);
    }
    lemma_row_sum_add_left(part, pq, zeros(0), r, k, big as int);
    lemma_row_sum_zero_left(zeros(0), r, k, big as int);
    lemma_row_sum_beyond(pq, r, k, big as int);
}

/// The product of the first `n` terms of `p` with `q`.
spec fn partial_mul(p: Seq<int>, q: Seq<int>, n: int) -> Seq<int> {
    Seq::new(p.len() + q.len(), |i: int| row_sum(p, q, i, n))
}

/// Associativity for the first `n` terms of `p`.
proof fn lemma_assoc_partial(p: Seq<int>, q: Seq<int>, r: Seq<int>, k: int, n: int)
    requires
        0 <= n <= p.len(),
    ensures
        row_sum(partial_mul(p, q, n), r, k, (p.len() + q.len()) as int) == row_sum(
            p,
            poly_mul(q, r),
            k,
            n,
        ),
    decreases n,
{
    let big = (p.len() + q.len()) as int;
    let cur = partial_mul(p, q, n);
    if n == 0 {
        assert forall|i: int| 0 <= i < big implies #[trigger] coef(cur, i) == 0 by {}
        lemma_row_sum_zero_left(cur, r, k, big);
    } else {
        let prev = partial_mul(p, q, n - 1);
        let c = coef(p, n - 1);
        let t = shift_scale(q, c, (n - 1) as nat);
        lemma_assoc_partial(p, q, r, k, n - 1);
        assert forall|i: int| 0 <= i < big implies #[trigger] coef(cur, i) == coef(prev, i) + coef(
            t,
            i,
        ) by {
            lemma_mul_is_commutative(c, coef(q, i - (n - 1)));
            if !(0 <= i < t.len()) {
                assert(coef(q, i - (n - 1)) == 0);
                assert(c * 0 == 0);
            }
        }
        lemma_row_sum_add_left(cur, prev, t, r, k, big);
        assert forall|i: int| #[trigger] coef(t, i) == c * coef(q, i - (n - 1)) by {
            if !(0 <= i < t.len()) {
                assert(coef(q, i - (n - 1)) == 0);
                assert(c * 0 == 0);
            }
        }
        lemma_row_sum_shift_scale(t, q, r, c, n - 1, k, big - (n - 1));
        lemma_row_sum_beyond(q, r, k - (n - 1), big - (n - 1));
        lemma_poly_mul_coef(q, r, k - (n - 1));
    }
}

/// The highest coefficient of a product is the product of the highest
/// stored coefficients.
pub proof fn lemma_prod_top(p: Seq<int>, q: Seq<int>)
    requires
        p.len() > 0,
        q.len() > 0,
    ensures
        prod_coef(p, q, p.len() + q.len() - 2) == p.last() * q.last(),
{
    let k = p.len() + q.len() - 2;
    let n = p.len() - 1;
    assert forall|i: int| 0 <= i < n implies #[trigger] coef(q, k - i) == 0 by {}
    lemma_row_sum_zero_right(p, q, k, n);
}

/// The sum over a right polynomial that is `c` times another is `c` times
/// the sum over the other.
pub proof fn lemma_row_sum_scale_right(
    p: Seq<int>,
    w: Seq<int>,
    v: Seq<int>,
    c: int,
    k: int,
    n: int,
)
    requires
        forall|i: int| #[trigger] coef(w, i) == c * coef(v, i),
    ensures
        row_sum(p, w, k, n) == c * row_sum(p, v, k, n),
    decreases n,
{
    if n <= 0 {
        assert(c * 0 == 0);
    } else {
        lemma_row_sum_scale_right(p, w, v, c, k, n - 1);
        let x = coef(p, n - 1);
        let y = coef(v, k - (n - 1));
        assert(coef(w, k - (n - 1)) == c * y);
        assert(x * (c * y) == c * (x * y)) by (nonlinear_arith);
        lemma_mul_is_distributive_add(c, row_sum(p, v, k, n - 1), x * y);
    }
}

/// The coefficients of `c * p` where `p` is multiplied by `q`.
pub proof fn lemma_prod_scale_left(p: Seq<int>, q: Seq<int>, c: int, k: int)
    ensures
        prod_coef(poly_scale(c, p), q, k) == c * prod_coef(p, q, k),
{
    let t = poly_scale(c, p);
    assert forall|i: int| #[trigger] coef(t, i) == c * coef(p, i - 0) by {
        if !(0 <= i < p.len()) {
            assert(c * 0 == 0);
        }
    }
    lemma_prod_shift_scale(t, p, q, c, 0, k);
}

/// The coefficients of `p` multiplied by `c * q`.
pub proof fn lemma_prod_scale_right(p: Seq<int>, q: Seq<int>, c: int, k: int)
    ensures
        prod_coef(p, poly_scale(c, q), k) == c * prod_coef(p, q, k),
{
    let t = poly_scale(c, q);
    assert forall|i: int| #[trigger] coef(t, i) == c * coef(q, i) by {
        if !(0 <= i < q.len()) {
            assert(c * 0 == 0);
        }
    }
    lemma_row_sum_scale_right(p, t, q, c, k, p.len() as int);
}

} // verus!
