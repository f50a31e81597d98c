//! Laws of polynomial arithmetic: sums, differences and products of
//! coefficient sequences evaluate to the sums, differences and products of
//! the values.
use crate::field::{fmod, lemma_from_val, Fp, MODULUS};
use crate::polynomial::{
    add_seq, coef, conv_prefix, lemma_poly_eval_strip, lemma_strip, mul_seq, poly_eval, strip,
    sub_seq, is_stripped,
};
use crate::sums::{
    lemma_poly_eval_as_long_sum, lemma_poly_eval_as_sum, lemma_sum_add, lemma_sum_congruent,
    lemma_sum_ext, lemma_sum_scale, lemma_sum_swap, lemma_sum_zero, poly_terms, sum,
};
use vstd::arithmetic::div_mod::{
    lemma_add_mod_noop, lemma_mod_bound, lemma_mod_twice, lemma_mul_mod_noop_general,
    lemma_small_mod, lemma_sub_mod_noop,
};
use vstd::arithmetic::power::{lemma_pow_adds, pow};
use vstd::prelude::*;

verus! {

/// The sum of two polynomials evaluates to the sum of their values.
pub proof fn lemma_eval_add(a: Seq<Fp>, b: Seq<Fp>, x: int)
    ensures
        fmod(poly_eval(strip(add_seq(a, b)), x)) == fmod(poly_eval(a, x) + poly_eval(b, x)),
{
    let s = add_seq(a, b);
    let l = s.len() as int;
    lemma_poly_eval_strip(s, x);
    lemma_poly_eval_as_sum(s, x);
    lemma_poly_eval_as_long_sum(a, x, l);
    lemma_poly_eval_as_long_sum(b, x, l);
    let ta = poly_terms(a, x);
    let tb = poly_terms(b, x);
    let k = |i: int| ta(i) + tb(i);
    assert forall|i: int| 0 <= i < l implies fmod(#[trigger] poly_terms(s, x)(i)) == fmod(k(i)) by {
        broadcast use lemma_from_val;

        let m = MODULUS as int;
        let p = pow(x, i as nat);
        lemma_mod_bound(coef(a, i) + coef(b, i), m);
        lemma_mul_mod_noop_general(coef(a, i) + coef(b, i), p, m);
        lemma_mul_mod_noop_general(fmod(coef(a, i) + coef(b, i)), p, m);
        lemma_mod_twice(coef(a, i) + coef(b, i), m);
        assert((coef(a, i) + coef(b, i)) * p == coef(a, i) * p + coef(b, i) * p)
            by (nonlinear_arith);
    }
    lemma_sum_congruent(poly_terms(s, x), k, l);
    lemma_sum_add(ta, tb, k, l);
}

/// The difference of two polynomials evaluates to the difference of their values.
pub proof fn lemma_eval_sub(a: Seq<Fp>, b: Seq<Fp>, x: int)
    ensures
        fmod(poly_eval(strip(sub_seq(a, b)), x)) == fmod(poly_eval(a, x) - poly_eval(b, x)),
{
    let s = sub_seq(a, b);
    let l = s.len() as int;
    lemma_poly_eval_strip(s, x);
    lemma_poly_eval_as_sum(s, x);
    lemma_poly_eval_as_long_sum(a, x, l);
    lemma_poly_eval_as_long_sum(b, x, l);
    let ta = poly_terms(a, x);
    let tb = poly_terms(b, x);
    let nb = |i: int| -1 * tb(i);
    let k = |i: int| ta(i) + nb(i);
    lemma_sum_scale(tb, nb, -1, l);
    assert forall|i: int| 0 <= i < l implies fmod(#[trigger] poly_terms(s, x)(i)) == fmod(k(i)) by {
        broadcast use lemma_from_val;

        let m = MODULUS as int;
        let p = pow(x, i as nat);
        lemma_mod_bound(coef(a, i) - coef(b, i), m);
        lemma_mul_mod_noop_general(fmod(coef(a, i) - coef(b, i)), p, m);
        lemma_mul_mod_noop_general(coef(a, i) - coef(b, i), p, m);
        lemma_mod_twice(coef(a, i) - coef(b, i), m);
        assert((coef(a, i) - coef(b, i)) * p == coef(a, i) * p + -1 * (coef(b, i) * p))
            by (nonlinear_arith);
    }
    lemma_sum_congruent(poly_terms(s, x), k, l);
    lemma_sum_add(ta, nb, k, l);
}

/// A convolution coefficient as a sum.
pub proof fn lemma_conv_as_sum(a: Seq<Fp>, b: Seq<Fp>, i: int, k: int)
    ensures
        conv_prefix(a, b, i, k) == sum(|t: int| coef(a, t) * coef(b, k - t), i),
    decreases i,
{
    if i > 0 {
        lemma_conv_as_sum(a, b, i - 1, k);
    }
}

/// Shifting the index of a sum whose terms vanish at negative indices.
pub proof fn lemma_sum_shift(f: spec_fn(int) -> int, g: spec_fn(int) -> int, i: int, l: int)
    requires
        0 <= i <= l,
        forall|j: int| j < 0 ==> #[trigger] f(j) == 0,
        forall|k: int| #[trigger] g(k) == f(k - i),
    ensures
        sum(g, l) == sum(f, l - i),
    decreases l,
{
    if l > i {
        lemma_sum_shift(f, g, i, l - 1);
        assert(g(l - 1) == f(l - 1 - i));
    } else {
        assert forall|k: int| 0 <= k < l implies #[trigger] g(k) == 0 by {
            assert(g(k) == f(k - i));
        }
        lemma_sum_zero(g, l);
    }
}

/// The product of two polynomials evaluates to the product of their values.
pub proof fn lemma_eval_mul(a: Seq<Fp>, b: Seq<Fp>, x: int)
    ensures
        fmod(poly_eval(strip(mul_seq(a, b)), x)) == fmod(poly_eval(a, x) * poly_eval(b, x)),
{
    let s = mul_seq(a, b);
    lemma_poly_eval_strip(s, x);
    let m = MODULUS as int;
    if a.len() == 0 || b.len() == 0 {
        assert(s.len() == 0);
        assert(poly_eval(a, x) == 0 || poly_eval(b, x) == 0);
        assert(poly_eval(a, x) * poly_eval(b, x) == 0) by (nonlinear_arith)
            requires
                poly_eval(a, x) == 0 || poly_eval(b, x) == 0,
        ;
    } else {
        let la = a.len() as int;
        let lb = b.len() as int;
        let l = s.len() as int;
        lemma_poly_eval_as_sum(s, x);
        // The k-th term, unreduced: sum_t a_t b_(k-t) x^k.
        let f = |t: int, k: int| coef(a, t) * coef(b, k - t) * pow(x, k as nat);
        let inner = |k: int| sum(|t: int| f(t, k), la);
        assert forall|k: int| 0 <= k < l implies fmod(#[trigger] poly_terms(s, x)(k)) == fmod(
            inner(k),
        ) by {
            broadcast use lemma_from_val;

            lemma_conv_as_sum(a, b, la, k);
            let c = conv_prefix(a, b, la, k);
            let p = pow(x, k as nat);
            assert(s[k] == Fp::from_val(fmod(c) as nat));
            lemma_mod_bound(c, m);
            assert(coef(s, k) == fmod(c));
            assert(poly_terms(s, x)(k) == fmod(c) * p);
            lemma_mod_bound(c, m);
            lemma_mul_mod_noop_general(fmod(c), p, m);
            lemma_mul_mod_noop_general(c, p, m);
            lemma_mod_twice(c, m);
            let cf = |t: int| coef(a, t) * coef(b, k - t);
            let fk = |t: int| f(t, k);
            assert forall|t: int| 0 <= t < la implies #[trigger] fk(t) == p * cf(t) by {
                assert(coef(a, t) * coef(b, k - t) * p == p * (coef(a, t) * coef(b, k - t)))
                    by (nonlinear_arith);
            }
            lemma_sum_scale(cf, fk, p, la);
            assert(sum(cf, la) == c);
            assert(inner(k) == sum(fk, la));
            assert(inner(k) == p * c);
            assert(c * p == p * c) by (nonlinear_arith);
        }
        lemma_sum_congruent(poly_terms(s, x), inner, l);
        lemma_sum_swap(f, la, l);
        // Each row t is a_t x^t times the value of b.
        let ea = poly_eval(a, x);
        let eb = poly_eval(b, x);
        let row = |t: int| sum(|k: int| f(t, k), l);
        assert forall|t: int| 0 <= t < la implies #[trigger] row(t) == poly_terms(a, x)(t) * eb by {
            let g = |j: int| coef(b, j) * pow(x, (j + t) as nat);
            let gs = |k: int| g(k - t);
            let ft = |k: int| f(t, k);
            assert forall|j: int| j < 0 implies #[trigger] g(j) == 0 by {}
            lemma_sum_shift(g, gs, t, l);
            assert forall|k: int| 0 <= k < l implies #[trigger] ft(k) == coef(a, t) * gs(k) by {
                assert(coef(a, t) * coef(b, k - t) * pow(x, k as nat) == coef(a, t) * (coef(
                    b,
                    k - t,
                ) * pow(x, k as nat))) by (nonlinear_arith);
            }
            lemma_sum_scale(gs, ft, coef(a, t), l);
            assert(row(t) == sum(ft, l));
            assert(row(t) == coef(a, t) * sum(g, l - t));
            let tb = poly_terms(b, x);
            let pt = pow(x, t as nat);
            assert forall|j: int| 0 <= j < l - t implies #[trigger] g(j) == pt * tb(j) by {
                lemma_pow_adds(x, j as nat, t as nat);
                assert(coef(b, j) * (pow(x, j as nat) * pt) == pt * (coef(b, j) * pow(x, j as nat)))
                    by (nonlinear_arith);
            }
            lemma_sum_scale(tb, g, pt, l - t);
            lemma_poly_eval_as_long_sum(b, x, l - t);
            assert(sum(g, l - t) == pt * eb);
            assert(coef(a, t) * (pt * eb) == coef(a, t) * pt * eb) by (nonlinear_arith);
        }
        let ta = poly_terms(a, x);
        let scaled = |t: int| eb * ta(t);
        assert forall|t: int| 0 <= t < la implies #[trigger] row(t) == scaled(t) by {
            assert(ta(t) * eb == eb * ta(t)) by (nonlinear_arith);
        }
        lemma_sum_ext(row, scaled, la);
        lemma_sum_scale(ta, scaled, eb, la);
        lemma_poly_eval_as_sum(a, x);
        assert(eb * ea == ea * eb) by (nonlinear_arith);
    }
}


/// Below the top index, every term of the top convolution coefficient
/// `sum_i a_i b_{|a| + |b| - 2 - i}` vanishes.
proof fn lemma_conv_top_prefix(a: Seq<Fp>, b: Seq<Fp>, i: int)
    requires
        a.len() >= 1,
        b.len() >= 1,
        0 <= i <= a.len() - 1,
    ensures
        conv_prefix(a, b, i, a.len() + b.len() - 2) == 0,
    decreases i,
{
    if i > 0 {
        lemma_conv_top_prefix(a, b, i - 1);
        assert(coef(b, a.len() + b.len() - 2 - (i - 1)) == 0);
    }
}

/// Degrees add under multiplication: the product of two non-zero stripped
/// polynomials is stripped and has `|a| + |b| - 1` coefficients, so
/// `deg(a b) = deg(a) + deg(b)`.
pub proof fn lemma_mul_degree(a: Seq<Fp>, b: Seq<Fp>)
    requires
        a.len() >= 1,
        b.len() >= 1,
        is_stripped(a),
        is_stripped(b),
        forall|i: int| 0 <= i < a.len() ==> (#[trigger] a[i]).val() < MODULUS,
        forall|i: int| 0 <= i < b.len() ==> (#[trigger] b[i]).val() < MODULUS,
    ensures
        strip(mul_seq(a, b)) == mul_seq(a, b),
        strip(mul_seq(a, b)).len() == a.len() + b.len() - 1,
        mul_seq(a, b).last().val() == fmod((a.last().val() * b.last().val()) as int),
{
    let la = a.len() as int;
    let lb = b.len() as int;
    let top = la + lb - 2;
    let p = mul_seq(a, b);
    lemma_conv_top_prefix(a, b, la - 1);
    let x = a[la - 1].val() as int;
    let y = b[lb - 1].val() as int;
    assert(conv_prefix(a, b, la, top) == x * y);
    lemma_small_mod(x as nat, MODULUS as nat);
    lemma_small_mod(y as nat, MODULUS as nat);
    if fmod(x * y) == 0 {
        crate::generator::lemma_no_zero_divisors(x, y);
    }
    lemma_mod_bound(x * y, MODULUS as int);
    lemma_from_val(fmod(x * y) as nat);
    assert(p.last().val() != 0);
    lemma_strip(p);
}

} // verus!
