//! Finite sums `sum_{i < n} f(i)` over the integers, and the facts about
//! them that the polynomial laws need.
use crate::field::{fmod, Fp, MODULUS};
use crate::polynomial::{coef, conv_prefix, poly_eval};
use vstd::arithmetic::div_mod::{lemma_add_mod_noop, lemma_mul_mod_noop_general, lemma_sub_mod_noop};
use vstd::arithmetic::power::{lemma_pow0, lemma_pow_adds, pow};
use vstd::prelude::*;

verus! {

/// `f(0) + f(1) + ... + f(n - 1)`.
pub open spec fn sum(f: spec_fn(int) -> int, n: int) -> int
    decreases n,
{
    if n <= 0 {
        0
    } else {
        sum(f, n - 1) + f(n - 1)
    }
}

/// Sums of pointwise-equal terms are equal.
pub proof fn lemma_sum_ext(f: spec_fn(int) -> int, g: spec_fn(int) -> int, n: int)
    requires
        forall|i: int| 0 <= i < n ==> #[trigger] f(i) == g(i),
    ensures
        sum(f, n) == sum(g, n),
    decreases n,
{
    if n > 0 {
        lemma_sum_ext(f, g, n - 1);
    }
}

/// Sums of pointwise-congruent terms are congruent modulo `p`.
pub proof fn lemma_sum_congruent(f: spec_fn(int) -> int, g: spec_fn(int) -> int, n: int)
    requires
        forall|i: int| 0 <= i < n ==> fmod(#[trigger] f(i)) == fmod(g(i)),
    ensures
        fmod(sum(f, n)) == fmod(sum(g, n)),
    decreases n,
{
    if n > 0 {
        lemma_sum_congruent(f, g, n - 1);
        lemma_add_mod_noop(sum(f, n - 1), f(n - 1), MODULUS as int);
        lemma_add_mod_noop(sum(g, n - 1), g(n - 1), MODULUS as int);
    }
}

/// The sum of a pointwise sum is the sum of the sums.
pub proof fn lemma_sum_add(f: spec_fn(int) -> int, g: spec_fn(int) -> int, k: spec_fn(int) -> int, n: int)
    requires
        forall|i: int| 0 <= i < n ==> #[trigger] k(i) == f(i) + g(i),
    ensures
        sum(k, n) == sum(f, n) + sum(g, n),
    decreases n,
{
    if n > 0 {
        lemma_sum_add(f, g, k, n - 1);
    }
}

/// Constant factors come out of a sum.
pub proof fn lemma_sum_scale(f: spec_fn(int) -> int, g: spec_fn(int) -> int, c: int, n: int)
    requires
        forall|i: int| 0 <= i < n ==> #[trigger] g(i) == c * f(i),
    ensures
        sum(g, n) == c * sum(f, n),
    decreases n,
{
    if n > 0 {
        lemma_sum_scale(f, g, c, n - 1);
        assert(c * sum(f, n - 1) + c * f(n - 1) == c * (sum(f, n - 1) + f(n - 1)))
            by (nonlinear_arith);
    }
}

/// A sum of zeros is zero.
pub proof fn lemma_sum_zero(f: spec_fn(int) -> int, n: int)
    requires
        forall|i: int| 0 <= i < n ==> #[trigger] f(i) == 0,
    ensures
        sum(f, n) == 0,
    decreases n,
{
    if n > 0 {
        lemma_sum_zero(f, n - 1);
    }
}

/// Terms past `n` that vanish do not change the sum.
pub proof fn lemma_sum_extend(f: spec_fn(int) -> int, n: int, m: int)
    requires
        0 <= n <= m,
        forall|i: int| n <= i < m ==> #[trigger] f(i) == 0,
    ensures
        sum(f, m) == sum(f, n),
    decreases m - n,
{
    if m > n {
        lemma_sum_extend(f, n, m - 1);
    }
}

/// Splitting off the first term: `sum_{i<n} f(i) = f(0) + sum_{i<n-1} f(i+1)`.
pub proof fn lemma_sum_first(f: spec_fn(int) -> int, n: int)
    requires
        n >= 1,
    ensures
        sum(f, n) == f(0) + sum(|i: int| f(i + 1), n - 1),
    decreases n,
{
    let g = |i: int| f(i + 1);
    if n > 1 {
        lemma_sum_first(f, n - 1);
        assert(sum(f, n) == sum(f, n - 1) + f(n - 1));
        assert(sum(g, n - 1) == sum(g, n - 2) + g(n - 2));
    } else {
        assert(sum(f, 1) == sum(f, 0) + f(0));
        assert(sum(g, 0) == 0);
    }
}

/// The terms `coef(s, i) * x^i` of a polynomial value.
pub open spec fn poly_terms(s: Seq<Fp>, x: int) -> spec_fn(int) -> int {
    |i: int| coef(s, i) * pow(x, i as nat)
}

/// A polynomial's value is the sum of its terms.
pub proof fn lemma_poly_eval_as_sum(s: Seq<Fp>, x: int)
    ensures
        poly_eval(s, x) == sum(poly_terms(s, x), s.len() as int),
    decreases s.len(),
{
    if s.len() > 0 {
        let t = s.drop_first();
        lemma_poly_eval_as_sum(t, x);
        lemma_sum_first(poly_terms(s, x), s.len() as int);
        let g = |i: int| poly_terms(s, x)(i + 1);
        let h = |i: int| x * poly_terms(t, x)(i);
        assert forall|i: int| 0 <= i < t.len() implies #[trigger] g(i) == h(i) by {
            lemma_pow_adds(x, 1, i as nat);
            reveal(pow);
            assert(pow(x, 1) == x * pow(x, 0));
            assert(coef(s, i + 1) == coef(t, i));
            assert(coef(t, i) * (x * pow(x, i as nat)) == x * (coef(t, i) * pow(x, i as nat)))
                by (nonlinear_arith);
        }
        lemma_sum_scale(poly_terms(t, x), g, x, t.len() as int);
        lemma_pow0(x);
    }
}

/// The value of a sequence is the sum of any longer run of its terms.
pub proof fn lemma_poly_eval_as_long_sum(s: Seq<Fp>, x: int, m: int)
    requires
        m >= s.len(),
    ensures
        poly_eval(s, x) == sum(poly_terms(s, x), m),
{
    lemma_poly_eval_as_sum(s, x);
    lemma_sum_extend(poly_terms(s, x), s.len() as int, m);
}

/// Interchange of a finite double sum.
pub proof fn lemma_sum_swap(f: spec_fn(int, int) -> int, n: int, m: int)
    ensures
        sum(|i: int| sum(|j: int| f(i, j), m), n) == sum(|j: int| sum(|i: int| f(i, j), n), m),
    decreases n,
{
    if n > 0 {
        lemma_sum_swap(f, n - 1, m);
        let g = |j: int| sum(|i: int| f(i, j), n - 1);
        let h = |j: int| f(n - 1, j);
        let row = |i: int| sum(|j: int| f(i, j), m);
        let col = |j: int| sum(|i: int| f(i, j), n);
        assert forall|j: int| 0 <= j < m implies #[trigger] col(j) == g(j) + h(j) by {
            assert(sum(|i: int| f(i, j), n) == sum(|i: int| f(i, j), n - 1) + f(n - 1, j));
        }
        lemma_sum_add(g, h, col, m);
        assert(sum(row, n) == sum(row, n - 1) + row(n - 1));
        assert(row(n - 1) == sum(h, m));
    } else {
        let col = |j: int| sum(|i: int| f(i, j), n);
        lemma_sum_zero(col, m);
    }
}

} // verus!
