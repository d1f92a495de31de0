//! Why the combiner gets the secret back: Lagrange interpolation over
//! `R = (Z/mZ)[x] / f(x)` at points whose differences are inverted.
//!
//! For points `x_0, ..., x_{n-1}` and a polynomial `c` over `R` with at most
//! `n` coefficients, the sum over `i` of `c(x_i) * L_i(w)` is `c(w)`, where
//! `L_i(w)` is the product over `j != i` of `(w - x_j) / (x_i - x_j)`. At
//! `w = 0` the sum is the constant term of `c`.

use crate::error::RingError;
use crate::ring::GaloisRing;
use crate::sharing::{has_duplicate, points, share_values};
use vstd::prelude::*;

verus! {

impl GaloisRing {
    /// The inverse of `x_i - x_j` as the ring's inversion finds it, and
    /// zero where it finds none.
    pub open spec fn difference_inverse(&self, xs: Seq<Seq<int>>, i: int, j: int) -> Seq<int> {
        match self.ring_inverse(self.ring_sub(xs[i], xs[j])) {
            Ok(v) => v,
            Err(_) => self.ring_zero(),
        }
    }

    /// The inverse of the difference of any two of the first `n` points is
    /// found.
    pub open spec fn inverses_found(&self, xs: Seq<Seq<int>>, n: nat) -> bool {
        forall|i: int, j: int|
            0 <= i < n && 0 <= j < n && i != j ==> (#[trigger] self.ring_inverse(
                self.ring_sub(xs[i], xs[j]),
            )) is Ok
    }

    /// `L_i(w)` for the first `n` points: the product over `j < n`,
    /// `j != i`, of `(w - x_j) / (x_i - x_j)`.
    pub open spec fn basis_value(&self, xs: Seq<Seq<int>>, i: int, n: nat, w: Seq<int>) -> Seq<int>
        decreases n,
    {
        if n == 0 {
            self.ring_one()
        } else {
            let prev = self.basis_value(xs, i, (n - 1) as nat, w);
            if n - 1 == i {
                prev
            } else {
                self.ring_mul(
                    prev,
                    self.ring_mul(
                        self.ring_sub(w, xs[n - 1]),
                        self.difference_inverse(xs, i, n - 1),
                    ),
                )
            }
        }
    }

    /// The coefficients of `L_i(X)` for the first `n` points.
    pub open spec fn basis_list(&self, xs: Seq<Seq<int>>, i: int, n: nat) -> Seq<Seq<int>>
        decreases n,
    {
        if n == 0 {
            seq![self.ring_one()]
        } else {
            let prev = self.basis_list(xs, i, (n - 1) as nat);
            if n - 1 == i {
                prev
            } else {
                self.list_scale(
                    self.difference_inverse(xs, i, n - 1),
                    self.mul_linear(prev, xs[n - 1]),
                )
            }
        }
    }

    /// The sum over `i < k` of `y_i * L_i(w)`, for the first `n` points.
    pub open spec fn interp_value(
        &self,
        xs: Seq<Seq<int>>,
        ys: Seq<Seq<int>>,
        k: nat,
        n: nat,
        w: Seq<int>,
    ) -> Seq<int>
        decreases k,
    {
        if k == 0 {
            self.ring_zero()
        } else {
            self.ring_add(
                self.interp_value(xs, ys, (k - 1) as nat, n, w),
                self.ring_mul(ys[k - 1], self.basis_value(xs, k - 1, n, w)),
            )
        }
    }

    /// The coefficients of the sum over `i < k` of `y_i * L_i(X)`.
    pub open spec fn interp_list(
        &self,
        xs: Seq<Seq<int>>,
        ys: Seq<Seq<int>>,
        k: nat,
        n: nat,
    ) -> Seq<Seq<int>>
        decreases k,
    {
        if k == 0 {
            self.list_zero(n)
        } else {
            self.list_add(
                self.interp_list(xs, ys, (k - 1) as nat, n),
                self.list_scale(ys[k - 1], self.basis_list(xs, k - 1, n)),
            )
        }
    }

    /// What is taken for the inverse of a difference is an element.
    pub proof fn lemma_difference_inverse(&self, xs: Seq<Seq<int>>, i: int, j: int)
        requires
            self.wf(),
            self.all_elements(xs),
            0 <= i < xs.len(),
            0 <= j < xs.len(),
        ensures
            self.contains(self.difference_inverse(xs, i, j)),
            self.ring_inverse(self.ring_sub(xs[i], xs[j])) is Ok ==> self.ring_mul(
                self.ring_sub(xs[i], xs[j]),
                self.difference_inverse(xs, i, j),
            ) == self.ring_one(),
    {
        self.lemma_results_are_elements();
        assert(self.contains(xs[i]) && self.contains(xs[j]));
        self.lemma_inverse_is_inverse(self.ring_sub(xs[i], xs[j]));
    }

    /// Points whose differences are inverted have differences that are
    /// units.
    pub proof fn lemma_inverses_are_units(&self, xs: Seq<Seq<int>>, n: nat)
        requires
            self.wf(),
            self.all_elements(xs),
            n <= xs.len(),
            self.inverses_found(xs, n),
        ensures
            self.units_between(xs, n),
    {
        assert forall|i: int, j: int| 0 <= i < n && 0 <= j < n && i != j implies self.is_ring_unit(
            #[trigger] self.ring_sub(xs[i], xs[j]),
        ) by {
            self.lemma_difference_inverse(xs, i, j);
            let v = self.difference_inverse(xs, i, j);
            assert(self.ring_inverse(self.ring_sub(xs[i], xs[j])) is Ok);
            assert(self.contains(v) && self.ring_mul(self.ring_sub(xs[i], xs[j]), v)
                == self.ring_one());
        }
    }

    /// The value of the list of `L_i` is `L_i`.
    pub proof fn lemma_basis_list(&self, xs: Seq<Seq<int>>, i: int, n: nat, w: Seq<int>)
        requires
            self.wf(),
            self.all_elements(xs),
            n <= xs.len(),
            0 <= i < xs.len(),
            self.contains(w),
        ensures
            self.horner(self.basis_list(xs, i, n), w) == self.basis_value(xs, i, n, w),
            self.all_elements(self.basis_list(xs, i, n)),
            i < n ==> self.basis_list(xs, i, n).len() == n,
            i >= n ==> self.basis_list(xs, i, n).len() == n + 1,
            self.contains(self.basis_value(xs, i, n, w)),
        decreases n,
    {
        self.lemma_results_are_elements();
        if n == 0 {
            let l = seq![self.ring_one()];
            assert(l.drop_first().len() == 0);
            assert(self.horner(l.drop_first(), w) == self.ring_zero());
            self.lemma_mul_zero(w);
            self.lemma_add_zero(self.ring_one());
        } else {
            self.lemma_basis_list(xs, i, (n - 1) as nat, w);
            if n - 1 != i {
                let prev = self.basis_list(xs, i, (n - 1) as nat);
                let pv = self.basis_value(xs, i, (n - 1) as nat, w);
                let a = xs[n - 1];
                let v = self.difference_inverse(xs, i, n - 1);
                assert(self.contains(a));
                self.lemma_difference_inverse(xs, i, n - 1);
                self.lemma_horner_mul_linear(prev, a, w);
                self.lemma_horner_scale(v, self.mul_linear(prev, a), w);
                let d = self.ring_sub(w, a);
                // v (d pv) = pv (d v)
                self.lemma_mul_comm(v, self.ring_mul(d, pv));
                self.lemma_mul_comm(d, pv);
                self.lemma_mul_assoc(pv, d, v);
            }
        }
    }

    /// `L_i` is one at point `i`.
    pub proof fn lemma_basis_at_own_point(&self, xs: Seq<Seq<int>>, i: int, k: nat, n: nat)
        requires
            self.wf(),
            self.all_elements(xs),
            k <= n <= xs.len(),
            0 <= i < n,
            self.inverses_found(xs, n),
        ensures
            self.basis_value(xs, i, k, xs[i]) == self.ring_one(),
        decreases k,
    {
        self.lemma_results_are_elements();
        if k > 0 {
            self.lemma_basis_at_own_point(xs, i, (k - 1) as nat, n);
            if k - 1 != i {
                self.lemma_difference_inverse(xs, i, k - 1);
                assert(self.ring_inverse(self.ring_sub(xs[i], xs[k - 1])) is Ok);
                self.lemma_mul_one(self.ring_one());
            }
        }
    }

    /// `L_i` is zero at every other point.
    pub proof fn lemma_basis_at_other_point(&self, xs: Seq<Seq<int>>, i: int, j: int, k: nat)
        requires
            self.wf(),
            self.all_elements(xs),
            k <= xs.len(),
            0 <= i < xs.len(),
            0 <= j < k,
            i != j,
        ensures
            self.basis_value(xs, i, k, xs[j]) == self.ring_zero(),
        decreases k,
    {
        self.lemma_results_are_elements();
        let w = xs[j];
        assert(self.contains(w));
        let prev = self.basis_value(xs, i, (k - 1) as nat, w);
        if k - 1 == j {
            // The factor of point j is (x_j - x_j) / (x_i - x_j) = 0.
            self.lemma_sub_self(w);
            let v = self.difference_inverse(xs, i, k - 1);
            self.lemma_mul_zero(v);
            self.lemma_mul_zero(prev);
        } else {
            self.lemma_basis_at_other_point(xs, i, j, (k - 1) as nat);
            if k - 1 != i {
                let factor = self.ring_mul(
                    self.ring_sub(w, xs[k - 1]),
                    self.difference_inverse(xs, i, k - 1),
                );
                self.lemma_mul_zero(factor);
            }
        }
    }

    /// The value of the list of the sum is the sum.
    pub proof fn lemma_interp_list(
        &self,
        xs: Seq<Seq<int>>,
        ys: Seq<Seq<int>>,
        k: nat,
        n: nat,
        w: Seq<int>,
    )
        requires
            self.wf(),
            self.all_elements(xs),
            self.all_elements(ys),
            k <= n,
            n == xs.len(),
            n == ys.len(),
            self.contains(w),
        ensures
            self.horner(self.interp_list(xs, ys, k, n), w) == self.interp_value(xs, ys, k, n, w),
            self.all_elements(self.interp_list(xs, ys, k, n)),
            self.interp_list(xs, ys, k, n).len() == n,
            self.contains(self.interp_value(xs, ys, k, n, w)),
        decreases k,
    {
        self.lemma_results_are_elements();
        if k == 0 {
            self.lemma_horner_zero(n, w);
        } else {
            self.lemma_interp_list(xs, ys, (k - 1) as nat, n, w);
            self.lemma_basis_list(xs, k - 1, n, w);
            let prev = self.interp_list(xs, ys, (k - 1) as nat, n);
            let b = self.basis_list(xs, k - 1, n);
            let y = ys[k - 1];
            assert(self.contains(y));
            let sb = self.list_scale(y, b);
            assert(self.all_elements(sb));
            self.lemma_horner_scale(y, b, w);
            self.lemma_horner_add(prev, sb, w);
            assert(self.all_elements(self.list_add(prev, sb)));
        }
    }

    /// At point `j` the sum over `i < k` is `y_j` where `j < k`, and zero
    /// where it is not.
    pub proof fn lemma_interp_at_point(
        &self,
        xs: Seq<Seq<int>>,
        ys: Seq<Seq<int>>,
        k: nat,
        n: nat,
        j: int,
    )
        requires
            self.wf(),
            self.all_elements(xs),
            self.all_elements(ys),
            k <= n,
            n == xs.len(),
            n == ys.len(),
            0 <= j < n,
            self.inverses_found(xs, n),
        ensures
            self.interp_value(xs, ys, k, n, xs[j]) == (if j < k {
                ys[j]
            } else {
                self.ring_zero()
            }),
        decreases k,
    {
        self.lemma_results_are_elements();
        if k > 0 {
            self.lemma_interp_at_point(xs, ys, (k - 1) as nat, n, j);
            let y = ys[k - 1];
            assert(self.contains(y));
            assert(self.contains(ys[j]));
            if k - 1 == j {
                self.lemma_basis_at_own_point(xs, j, n, n);
                self.lemma_mul_one(y);
                self.lemma_add_zero(y);
            } else {
                self.lemma_basis_at_other_point(xs, k - 1, j, n);
                self.lemma_mul_zero(y);
                self.lemma_add_zero(ys[j]);
                self.lemma_add_zero(self.ring_zero());
            }
        }
    }

    /// One step of the sum of powers, seen from the constant term.
    proof fn lemma_eval_sum_step(&self, c: Seq<Seq<int>>, w: Seq<int>, n: nat)
        requires
            self.wf(),
            self.all_elements(c),
            self.contains(w),
            n + 1 <= c.len(),
        ensures
            self.eval_sum(c, w, n + 1) == self.ring_add(
                c[0],
                self.ring_mul(w, self.eval_sum(c.drop_first(), w, n)),
            ),
        decreases n,
    {
        self.lemma_results_are_elements();
        let t = c.drop_first();
        assert(self.contains(c[0]));
        if n == 0 {
            assert(self.eval_sum(c, w, 0) == self.ring_zero());
            assert(self.ring_pow(w, 0) == self.ring_one());
            self.lemma_mul_one(c[0]);
            self.lemma_add_zero(c[0]);
            self.lemma_mul_zero(w);
        } else {
            self.lemma_eval_sum_step(c, w, (n - 1) as nat);
            let e = self.eval_sum(t, w, (n - 1) as nat);
            let cn = c[n as int];
            assert(t[n - 1] == cn);
            assert(self.contains(cn));
            let p = self.ring_pow(w, (n - 1) as nat);
            let pn = self.ring_pow(w, n);
            assert(pn == self.ring_mul(p, w));
            assert(self.eval_sum(t, w, n) == self.ring_add(e, self.ring_mul(cn, p)));
            // w (e + cn p) = w e + cn (p w)
            self.lemma_distributive(w, e, self.ring_mul(cn, p));
            self.lemma_mul_comm(w, self.ring_mul(cn, p));
            self.lemma_mul_assoc(cn, p, w);
            self.lemma_add_assoc(c[0], self.ring_mul(w, e), self.ring_mul(cn, pn));
        }
    }

    /// The sum of `c[j] * w^j` is the value of `c` by Horner's rule.
    pub proof fn lemma_eval_is_horner(&self, c: Seq<Seq<int>>, w: Seq<int>)
        requires
            self.wf(),
            self.all_elements(c),
            self.contains(w),
        ensures
            self.eval(c, w) == self.horner(c, w),
        decreases c.len(),
    {
        if c.len() > 0 {
            let t = c.drop_first();
            assert(self.all_elements(t)) by {
                assert forall|i: int| 0 <= i < t.len() implies self.contains(#[trigger] t[i]) by {
                    assert(t[i] == c[i + 1]);
                }
            }
            self.lemma_eval_is_horner(t, w);
            self.lemma_eval_sum_step(c, w, (c.len() - 1) as nat);
        }
    }

    /// The value at zero is the constant term.
    pub proof fn lemma_eval_at_zero(&self, c: Seq<Seq<int>>)
        requires
            self.wf(),
            self.all_elements(c),
            c.len() >= 1,
        ensures
            self.eval(c, self.ring_zero()) == c[0],
    {
        self.lemma_results_are_elements();
        let zero = self.ring_zero();
        self.lemma_eval_is_horner(c, zero);
        self.lemma_mul_zero(self.horner(c.drop_first(), zero));
        assert(self.contains(c[0]));
        self.lemma_add_zero(c[0]);
    }

    /// Lagrange interpolation: for `n` points whose differences are
    /// inverted and a polynomial `c` with at most `n` coefficients, the sum
    /// of `c(x_i) * L_i(w)` is `c(w)`.
    pub proof fn lemma_interpolation(
        &self,
        c: Seq<Seq<int>>,
        xs: Seq<Seq<int>>,
        ys: Seq<Seq<int>>,
        w: Seq<int>,
    )
        requires
            self.wf(),
            self.all_elements(c),
            self.all_elements(xs),
            c.len() <= xs.len(),
            ys.len() == xs.len(),
            forall|i: int| 0 <= i < xs.len() ==> #[trigger] ys[i] == self.eval(c, xs[i]),
            self.inverses_found(xs, xs.len()),
            self.contains(w),
        ensures
            self.interp_value(xs, ys, xs.len(), xs.len(), w) == self.eval(c, w),
    {
        self.lemma_results_are_elements();
        let n = xs.len();
        assert(self.all_elements(ys)) by {
            assert forall|i: int| 0 <= i < ys.len() implies self.contains(#[trigger] ys[i]) by {
                assert(self.contains(xs[i]));
                self.lemma_eval_is_horner(c, xs[i]);
            }
        }
        let sum = self.interp_list(xs, ys, n, n);
        let padded = self.list_pad(c, n);
        let g = self.list_sub(sum, padded);
        self.lemma_interp_list(xs, ys, n, n, w);
        self.lemma_horner_pad(c, n, w);
        self.lemma_horner_sub(sum, padded, w);
        self.lemma_eval_is_horner(c, w);
        assert(self.all_elements(g));
        self.lemma_inverses_are_units(xs, n);
        assert forall|k: int| 0 <= k < n implies #[trigger] self.horner(g, xs[k])
            == self.ring_zero() by {
            let x = xs[k];
            assert(self.contains(x));
            self.lemma_interp_list(xs, ys, n, n, x);
            self.lemma_horner_pad(c, n, x);
            self.lemma_horner_sub(sum, padded, x);
            self.lemma_eval_is_horner(c, x);
            self.lemma_interp_at_point(xs, ys, n, n, k);
            self.lemma_sub_self(ys[k]);
        }
        self.lemma_roots(g, xs, n, w);
        self.lemma_sub_zero_eq(self.horner(sum, w), self.horner(padded, w));
    }

    /// Where the product of the combiner is found, it is `L_i(0)`, and the
    /// inverses that it takes are found.
    pub proof fn lemma_product_is_basis(&self, xs: Seq<Seq<int>>, i: int, n: nat)
        requires
            self.wf(),
            self.all_elements(xs),
            n <= xs.len(),
            0 <= i < xs.len(),
        ensures
            self.lagrange_product(xs, i, n) matches Ok(l) ==> l == self.basis_value(
                xs,
                i,
                n,
                self.ring_zero(),
            ),
            self.lagrange_product(xs, i, n) is Ok <==> (forall|j: int|
                0 <= j < n && j != i ==> (#[trigger] self.ring_inverse(
                    self.ring_sub(xs[i], xs[j]),
                )) is Ok),
        decreases n,
    {
        self.lemma_results_are_elements();
        if n > 0 {
            self.lemma_product_is_basis(xs, i, (n - 1) as nat);
            let x = xs[n - 1];
            assert(self.contains(x));
            // -x = 0 - x
            assert(self.ring_neg(x) =~= self.ring_sub(self.ring_zero(), x));
            if self.lagrange_product(xs, i, n) is Ok {
                assert forall|j: int| 0 <= j < n && j != i implies (#[trigger] self.ring_inverse(
                    self.ring_sub(xs[i], xs[j]),
                )) is Ok by {
                    if j < n - 1 {
                    }
                }
            }
        }
    }

    /// Where the sum of the combiner is found, it is the sum of
    /// `y_i * L_i(0)`, and the inverses that it takes are found.
    pub proof fn lemma_sum_is_interp(&self, xs: Seq<Seq<int>>, ys: Seq<Seq<int>>, k: nat)
        requires
            self.wf(),
            self.all_elements(xs),
            k <= xs.len(),
        ensures
            self.lagrange_sum(xs, ys, k) matches Ok(s) ==> s == self.interp_value(
                xs,
                ys,
                k,
                xs.len(),
                self.ring_zero(),
            ),
            self.lagrange_sum(xs, ys, k) is Ok <==> (forall|i: int, j: int|
                0 <= i < k && 0 <= j < xs.len() && i != j ==> (#[trigger] self.ring_inverse(
                    self.ring_sub(xs[i], xs[j]),
                )) is Ok),
        decreases k,
    {
        if k > 0 {
            self.lemma_sum_is_interp(xs, ys, (k - 1) as nat);
            self.lemma_product_is_basis(xs, k - 1, xs.len());
            if self.lagrange_sum(xs, ys, k) is Ok {
                assert forall|i: int, j: int|
                    0 <= i < k && 0 <= j < xs.len() && i != j implies (#[trigger] self.ring_inverse(
                    self.ring_sub(xs[i], xs[j]),
                )) is Ok by {
                    if i < k - 1 {
                    }
                }
            }
        }
    }

    /// Zero has no inverse.
    pub proof fn lemma_zero_has_no_inverse(&self)
        requires
            self.wf(),
        ensures
            self.ring_inverse(self.ring_zero()) is Err,
    {
        let m = self.m();
        let f = self.f();
        let zero = self.ring_zero();
        self.lemma_f_divides();
        assert(crate::poly_spec::reduce(zero, m) =~= zero) by {
            assert forall|i: int| 0 <= i < zero.len() implies crate::poly_spec::reduce(zero, m)[i]
                == zero[i] by {
                vstd::arithmetic::div_mod::lemma_small_mod(0, m as nat);
            }
        }
        crate::polynomial::lemma_trim_len(zero, 0);
        assert(zero.take(0) =~= Seq::<int>::empty());
        assert(crate::poly_spec::normal(zero, m).len() == 0);
    }

    /// The combiner succeeds exactly where at least one point is given and
    /// the inverse of the difference of any two of the points is found.
    pub proof fn lemma_reconstruct_succeeds(&self, xs: Seq<Seq<int>>, ys: Seq<Seq<int>>)
        requires
            self.wf(),
            self.all_elements(xs),
        ensures
            self.reconstruct_spec(xs, ys) is Ok <==> xs.len() >= 1 && self.inverses_found(
                xs,
                xs.len(),
            ),
    {
        self.lemma_sum_is_interp(xs, ys, xs.len());
        if xs.len() >= 1 && self.inverses_found(xs, xs.len()) {
            if has_duplicate(xs) {
                let (i, j) = choose|i: int, j: int| 0 <= i < j < xs.len() && xs[i] == xs[j];
                self.lemma_sub_self(xs[i]);
                self.lemma_zero_has_no_inverse();
                assert(self.ring_inverse(self.ring_sub(xs[i], xs[j])) is Ok);
            }
        }
    }

    /// The combiner gives the secret back: for a sharing polynomial `c`
    /// and its values `ys` at the points `xs`, at least as many as `c` has
    /// coefficients, whatever the combiner computes is the constant term
    /// of `c`.
    pub proof fn lemma_reconstruct_gives_secret(
        &self,
        c: Seq<Seq<int>>,
        xs: Seq<Seq<int>>,
        ys: Seq<Seq<int>>,
    )
        requires
            self.wf(),
            self.all_elements(c),
            self.all_elements(xs),
            1 <= c.len() <= xs.len(),
            ys.len() == xs.len(),
            forall|i: int| 0 <= i < xs.len() ==> #[trigger] ys[i] == self.eval(c, xs[i]),
        ensures
            self.reconstruct_spec(xs, ys) is Ok ==> self.reconstruct_spec(xs, ys) == Ok::<
                Seq<int>,
                RingError,
            >(c[0]),
    {
        if self.reconstruct_spec(xs, ys) is Ok {
            self.lemma_results_are_elements();
            self.lemma_reconstruct_succeeds(xs, ys);
            self.lemma_sum_is_interp(xs, ys, xs.len());
            self.lemma_interpolation(c, xs, ys, self.ring_zero());
            self.lemma_eval_at_zero(c);
        }
    }

    /// The round trip of dealer and combiner: of the shares that the dealer
    /// hands out for the sharing polynomial `c`, take those with the
    /// numbers `chosen`, at least as many as `c` has coefficients. Whatever
    /// the combiner computes from them is the secret `c[0]`; and it
    /// computes something exactly where the inverse of the difference of
    /// any two of their points is found.
    pub proof fn lemma_round_trip(&self, c: Seq<Seq<int>>, n: nat, chosen: Seq<int>)
        requires
            self.wf(),
            self.all_elements(c),
            1 <= c.len() <= chosen.len(),
            forall|k: int| 0 <= k < chosen.len() ==> 0 <= #[trigger] chosen[k] < n,
        ensures
            ({
                let all = self.dealt(c, n);
                let taken = Seq::new(chosen.len(), |k: int| all[chosen[k]]);
                let result = self.reconstruct_spec(points(taken), share_values(taken));
                &&& result is Ok ==> result == Ok::<Seq<int>, RingError>(c[0])
                &&& result is Ok <==> self.inverses_found(points(taken), chosen.len())
            }),
    {
        let all = self.dealt(c, n);
        let taken = Seq::new(chosen.len(), |k: int| all[chosen[k]]);
        let xs = points(taken);
        let ys = share_values(taken);
        assert forall|k: int| 0 <= k < xs.len() implies self.contains(#[trigger] xs[k]) by {
            self.lemma_exceptional_point(chosen[k] + 1);
        }
        assert forall|k: int| 0 <= k < xs.len() implies #[trigger] ys[k] == self.eval(
            c,
            xs[k],
        ) by {}
        self.lemma_reconstruct_gives_secret(c, xs, ys);
        self.lemma_reconstruct_succeeds(xs, ys);
    }
}

} // verus!
