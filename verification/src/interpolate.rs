//! Lagrange interpolation: the polynomial through given `(x_i, y_i)` pairs.
use crate::fft::{inv_val, lemma_poly_eval_scalar};
use crate::field::{fmod, lemma_from_val, lemma_val_eq, Fp, MODULUS};
use crate::poly_laws::{lemma_eval_add, lemma_eval_mul};
use crate::polynomial::{is_stripped, lemma_strip, poly_eval, strip, UnivariatePoly};
use crate::sums::sum;
use vstd::arithmetic::div_mod::{
    lemma_add_mod_noop, lemma_mod_bound, lemma_mod_twice, lemma_mul_mod_noop_general,
    lemma_small_mod, lemma_sub_mod_noop,
};
use vstd::arithmetic::power::pow;
use vstd::prelude::*;

verus! {

/// The `x` coordinates of the points are pairwise distinct.
pub open spec fn distinct_xs(pts: Seq<(Fp, Fp)>) -> bool {
    forall|a: int, b: int| 0 <= a < b < pts.len() ==> pts[a].0 != pts[b].0
}

/// `prod_{j < m, j != i} (X - x_j)`.
pub open spec fn prod_except(pts: Seq<(Fp, Fp)>, i: int, x: int, m: int) -> int
    decreases m,
{
    if m <= 0 {
        1
    } else {
        prod_except(pts, i, x, m - 1) * if m - 1 == i {
            1
        } else {
            x - pts[m - 1].0.val()
        }
    }
}

/// The `i`-th Lagrange term at `X`: `y_i · L_i(X)`, with the basis
/// denominator inverted as `d^(p-2)`.
pub open spec fn lagrange_term(pts: Seq<(Fp, Fp)>, i: int, x: int) -> int {
    pts[i].1.val() * inv_val(fmod(prod_except(pts, i, pts[i].0.val() as int, pts.len() as int)))
        * prod_except(pts, i, x, pts.len() as int)
}

/// The value at `X` of the Lagrange interpolant of `pts`.
pub open spec fn lagrange_value(pts: Seq<(Fp, Fp)>, x: int) -> int {
    sum(|i: int| lagrange_term(pts, i, x), pts.len() as int)
}

/// Multiply every coefficient of `poly` by `scalar`, re-stripping.
pub fn scalar_mul(poly: &UnivariatePoly, scalar: Fp) -> (r: UnivariatePoly)
    ensures
        r@ == strip(
            Seq::new(poly@.len(), |i: int| Fp::from_val(fmod(poly@[i].val() as int * scalar.val()) as nat)),
        ),
        forall|x: int| #[trigger] fmod(poly_eval(r@, x)) == fmod(scalar.val() * poly_eval(poly@, x)),
        r@.len() <= poly@.len(),
{
    let c = poly.coeffs();
    let n = c.len();
    let mut out: Vec<Fp> = Vec::with_capacity(n);
    for i in 0..n
        invariant
            n == c@.len(),
            c@ == poly@,
            out@.len() == i,
            forall|j: int|
                0 <= j < i ==> #[trigger] out@[j] == Fp::from_val(
                    fmod(poly@[j].val() as int * scalar.val()) as nat,
                ),
    {
        let v = c[i] * scalar;
        proof {
            broadcast use lemma_from_val;
            broadcast use lemma_val_eq;

        }
        out.push(v);
    }
    let ghost s = Seq::new(poly@.len(), |i: int| Fp::from_val(fmod(poly@[i].val() as int * scalar.val()) as nat));
    proof {
        assert(out@ =~= s);
    }
    let r = UnivariatePoly::new(out);
    proof {
        lemma_strip(s);
        assert forall|x: int| #[trigger] fmod(poly_eval(r@, x)) == fmod(scalar.val() * poly_eval(poly@, x)) by {
            crate::polynomial::lemma_poly_eval_strip(s, x);
            assert forall|i: int| 0 <= i < s.len() implies fmod(#[trigger] s[i].val() as int) == fmod(
                scalar.val() as int * poly@[i].val(),
            ) by {
                broadcast use lemma_from_val;

                let m = MODULUS as int;
                lemma_mod_bound(poly@[i].val() as int * scalar.val(), m);
                lemma_mod_twice(poly@[i].val() as int * scalar.val(), m);
                assert(poly@[i].val() as int * scalar.val() == scalar.val() as int * poly@[i].val())
                    by (nonlinear_arith);
            }
            lemma_poly_eval_scalar(s, poly@, scalar.val() as int, x);
        }
    }
    r
}

/// The linear polynomial `X - a` as a stripped coefficient sequence.
fn linear_factor(a: Fp) -> (r: UnivariatePoly)
    ensures
        r@.len() == 2,
        forall|x: int| #[trigger] fmod(poly_eval(r@, x)) == fmod(x - a.val()),
{
    let mut v: Vec<Fp> = Vec::with_capacity(2);
    v.push(Fp::zero() - a);
    v.push(Fp::one());
    let r = UnivariatePoly::new(v);
    proof {
        broadcast use lemma_from_val;

        assert(v@.last().val() == 1);
        lemma_strip(v@);
        assert(r@ == v@);
        assert(r@[1].val() == 1);
        assert forall|x: int| #[trigger] fmod(poly_eval(r@, x)) == fmod(x - a.val()) by {
            let m = MODULUS as int;
            assert(r@.drop_first().drop_first().len() == 0);
            assert(r@.drop_first()[0] == r@[1]);
            assert(poly_eval(r@.drop_first().drop_first(), x) == 0);
            assert(r@.drop_first()[0].val() == 1);
            assert(poly_eval(r@.drop_first(), x) == 1 + x * 0);
            assert(poly_eval(r@, x) == r@[0].val() + x * 1);
            lemma_mod_bound(0 - a.val(), m);
            lemma_add_mod_noop(fmod(0 - a.val()), x, m);
            lemma_add_mod_noop(0 - a.val(), x, m);
            lemma_mod_twice(0 - a.val(), m);
        }
    }
    r
}

/// Both coordinates of every point are canonical field values.
pub(crate) fn points_are_canonical(points: &[(Fp, Fp)])
    ensures
        forall|k: int| 0 <= k < points@.len() ==> (#[trigger] points@[k]).0.val() < MODULUS && points@[k].1.val()
            < MODULUS,
{
    let mut k: usize = 0;
    while k < points.len()
        invariant
            k <= points@.len(),
            forall|kk: int| 0 <= kk < k ==> (#[trigger] points@[kk]).0.val() < MODULUS && points@[kk].1.val() < MODULUS,
        decreases points@.len() - k,
    {
        let pk = points[k];
        proof {
            use_type_invariant(&pk.0);
            use_type_invariant(&pk.1);
            crate::field::lemma_canonical(pk.0);
            crate::field::lemma_canonical(pk.1);
        }
        k = k + 1;
    }
}

/// The unique polynomial of degree `< n` through the `n` given points,
/// built from the Lagrange basis.
pub fn lagrange_interpolate(points: &[(Fp, Fp)]) -> (r: UnivariatePoly)
    requires
        1 <= points@.len() < usize::MAX,
        distinct_xs(points@),
    ensures
        is_stripped(r@),
        r@.len() <= points@.len(),
        forall|x: int| #[trigger] fmod(poly_eval(r@, x)) == fmod(lagrange_value(points@, x)),
        forall|j: int| 0 <= j < points@.len() ==> fmod(poly_eval(r@, (#[trigger] points@[j]).0.val() as int))
            == points@[j].1.val(),
{
    let n = points.len();
    let ghost pts = points@;
    points_are_canonical(points);
    let mut result = UnivariatePoly::zero();
    for i in 0..n
        invariant
            n == pts.len(),
            pts == points@,
            forall|kk: int| 0 <= kk < n ==> (#[trigger] pts[kk]).0.val() < MODULUS && pts[kk].1.val() < MODULUS,
            n >= 1,
            n < usize::MAX,
            is_stripped(result@),
            result@.len() <= n,
            forall|x: int| #[trigger] fmod(poly_eval(result@, x)) == fmod(
                sum(|t: int| lagrange_term(pts, t, x), i as int),
            ),
    {
        let mut numerator = UnivariatePoly::one();
        let mut denominator = Fp::one();
        let xi = points[i].0;
        proof {
            assert forall|x: int| #[trigger] fmod(poly_eval(numerator@, x)) == fmod(prod_except(pts, i as int, x, 0)) by {
                assert(numerator@.drop_first().len() == 0);
                assert(poly_eval(numerator@.drop_first(), x) == 0);
                assert(poly_eval(numerator@, x) == 1);
                lemma_small_mod(1, MODULUS as nat);
            }
            lemma_small_mod(1, MODULUS as nat);
        }
        for j in 0..n
            invariant
                n == pts.len(),
                pts == points@,
                n < usize::MAX,
                i < n,
                xi == pts[i as int].0,
                numerator@.len() + (if j > i { 1int } else { 0int }) <= 1 + j,
                forall|x: int| #[trigger] fmod(poly_eval(numerator@, x)) == fmod(
                    prod_except(pts, i as int, x, j as int),
                ),
                denominator.val() == fmod(prod_except(pts, i as int, xi.val() as int, j as int)),
        {
            if j != i {
                let xj = points[j].0;
                let lin = linear_factor(xj);
                let ghost old_num = numerator@;
                numerator = numerator * lin;
                denominator = denominator * (xi - xj);
                proof {
                    broadcast use lemma_from_val;

                    let m = MODULUS as int;
                    lemma_strip(crate::polynomial::mul_seq(old_num, lin@));
                    assert forall|x: int| #[trigger] fmod(poly_eval(numerator@, x)) == fmod(
                        prod_except(pts, i as int, x, (j + 1) as int),
                    ) by {
                        lemma_eval_mul(old_num, lin@, x);
                        let a = poly_eval(old_num, x);
                        let b = poly_eval(lin@, x);
                        assert(fmod(b) == fmod(x - xj.val()));
                        assert(fmod(a) == fmod(prod_except(pts, i as int, x, j as int)));
                        assert(pts[j as int].0 == xj);
                        lemma_mul_mod_noop_general(a, b, m);
                        lemma_mul_mod_noop_general(prod_except(pts, i as int, x, j as int), x - xj.val(), m);
                    }
                    let d = prod_except(pts, i as int, xi.val() as int, j as int);
                    lemma_mod_bound(xi.val() - xj.val(), m);
                    lemma_mul_mod_noop_general(d, xi.val() - xj.val(), m);
                    lemma_mod_twice(xi.val() - xj.val(), m);
                }
            } else {
                proof {
                    assert forall|x: int| #[trigger] fmod(poly_eval(numerator@, x)) == fmod(
                        prod_except(pts, i as int, x, (j + 1) as int),
                    ) by {}
                }
            }
        }
        let denom_inv = match denominator.inverse() {
            Some(v) => v,
            None => Fp::zero(),
        };
        let yi = points[i].1;
        let coeff = yi * denom_inv;
        let scaled = scalar_mul(&numerator, coeff);
        let ghost old_res = result@;
        result = result + scaled;
        proof {
            broadcast use lemma_from_val;

            let m = MODULUS as int;
            let dval = denominator.val() as int;
            assert(denom_inv.val() == inv_val(dval)) by {
                if dval == 0 {
                    vstd::arithmetic::power::lemma0_pow((MODULUS - 2) as nat);
                    lemma_small_mod(0, MODULUS as nat);
                }
            }
            lemma_strip(crate::polynomial::add_seq(old_res, scaled@));
            assert forall|x: int| #[trigger] fmod(poly_eval(result@, x)) == fmod(
                sum(|t: int| lagrange_term(pts, t, x), (i + 1) as int),
            ) by {
                lemma_eval_add(old_res, scaled@, x);
                let pe = prod_except(pts, i as int, x, n as int);
                let cv = coeff.val() as int;
                let term = lagrange_term(pts, i as int, x);
                assert(cv == fmod(yi.val() * inv_val(dval)));
                assert(fmod(poly_eval(numerator@, x)) == fmod(pe));
                assert(pts[i as int].1 == yi);
                assert(fmod(poly_eval(scaled@, x)) == fmod(cv * poly_eval(numerator@, x)));
                lemma_mul_mod_noop_general(cv, poly_eval(numerator@, x), m);
                lemma_mul_mod_noop_general(cv, pe, m);
                lemma_mul_mod_noop_general(yi.val() * inv_val(dval), pe, m);
                lemma_mod_twice(yi.val() * inv_val(dval), m);
                assert(fmod(poly_eval(scaled@, x)) == fmod(term));
                let s0 = sum(|t: int| lagrange_term(pts, t, x), i as int);
                assert(fmod(poly_eval(old_res, x)) == fmod(s0));
                assert(sum(|t: int| lagrange_term(pts, t, x), (i + 1) as int) == s0 + term);
                lemma_add_mod_noop(poly_eval(old_res, x), poly_eval(scaled@, x), m);
                lemma_add_mod_noop(s0, term, m);
            }
        }
    }
    proof {
        assert forall|j: int| 0 <= j < points@.len() implies fmod(poly_eval(result@, (#[trigger] points@[j]).0.val() as int))
            == points@[j].1.val() by {
            lemma_lagrange_interpolates(points@, j);
        }
    }
    result
}

/// With the point `x_j` itself among the factors, `prod_except(i, x_j)`
/// vanishes for every `i != j`.
proof fn lemma_prod_except_vanishes(pts: Seq<(Fp, Fp)>, i: int, j: int, m: int)
    requires
        0 <= j < m,
        j != i,
    ensures
        prod_except(pts, i, pts[j].0.val() as int, m) == 0,
    decreases m,
{
    let x = pts[j].0.val() as int;
    let prev = prod_except(pts, i, x, m - 1);
    if m - 1 == j {
        assert(prev * (x - pts[m - 1].0.val()) == 0) by (nonlinear_arith)
            requires
                x - pts[m - 1].0.val() == 0,
        ;
    } else {
        lemma_prod_except_vanishes(pts, i, j, m - 1);
        let f = if m - 1 == i { 1 } else { x - pts[m - 1].0.val() };
        assert(prev * f == 0) by (nonlinear_arith)
            requires
                prev == 0,
        ;
    }
}

/// The Lagrange denominator `prod_{k != i} (x_i - x_k)` is non-zero modulo
/// `p` when the `x` coordinates are distinct.
proof fn lemma_prod_except_nonzero(pts: Seq<(Fp, Fp)>, i: int, m: int)
    requires
        distinct_xs(pts),
        forall|k: int| 0 <= k < pts.len() ==> (#[trigger] pts[k]).0.val() < MODULUS && pts[k].1.val() < MODULUS,
        0 <= i < pts.len(),
        0 <= m <= pts.len(),
    ensures
        fmod(prod_except(pts, i, pts[i].0.val() as int, m)) != 0,
    decreases m,
{
    let md = MODULUS as int;
    let x = pts[i].0.val() as int;
    if m == 0 {
        lemma_small_mod(1, MODULUS as nat);
    } else {
        lemma_prod_except_nonzero(pts, i, m - 1);
        let prev = prod_except(pts, i, x, m - 1);
        if m - 1 == i {
            assert(prev * 1 == prev);
        } else {
            let xk = pts[m - 1].0;
            let d = x - xk.val();
            assert(pts[i].0.val() < MODULUS);
            assert(pts[m - 1].0.val() < MODULUS);
            assert(d != 0) by {
                if d == 0 {
                    if m - 1 < i {
                        assert(pts[m - 1].0 != pts[i].0);
                    } else {
                        assert(pts[i].0 != pts[m - 1].0);
                    }
                    lemma_val_eq(pts[i].0, xk);
                }
            }
            assert(fmod(d) != 0) by {
                if fmod(d) == 0 {
                    vstd::arithmetic::div_mod::lemma_fundamental_div_mod(d, md);
                    let q = d / md;
                    assert(false) by (nonlinear_arith)
                        requires
                            d == md * q + 0,
                            d != 0,
                            -md < d < md,
                    ;
                }
            }
            if fmod(prev * d) == 0 {
                crate::generator::lemma_no_zero_divisors(prev, d);
            }
        }
    }
}

/// A sum with a single possibly non-zero term at `j`.
proof fn lemma_sum_single(f: spec_fn(int) -> int, n: int, j: int)
    requires
        0 <= j < n,
        forall|i: int| 0 <= i < n && i != j ==> #[trigger] f(i) == 0,
    ensures
        sum(f, n) == f(j),
    decreases n,
{
    if n - 1 == j {
        crate::sums::lemma_sum_zero(f, n - 1);
    } else {
        lemma_sum_single(f, n - 1, j);
    }
}

/// The interpolant passes through every given point: `L(x_j) = y_j`.
pub proof fn lemma_lagrange_interpolates(pts: Seq<(Fp, Fp)>, j: int)
    requires
        distinct_xs(pts),
        forall|k: int| 0 <= k < pts.len() ==> (#[trigger] pts[k]).0.val() < MODULUS && pts[k].1.val() < MODULUS,
        0 <= j < pts.len(),
    ensures
        fmod(lagrange_value(pts, pts[j].0.val() as int)) == pts[j].1.val(),
{
    let md = MODULUS as int;
    let n = pts.len() as int;
    let x = pts[j].0.val() as int;
    let f = |i: int| lagrange_term(pts, i, x);
    let g = |i: int| if i == j { f(j) } else { 0 };
    assert forall|i: int| 0 <= i < n implies fmod(#[trigger] f(i)) == fmod(g(i)) by {
        if i != j {
            lemma_prod_except_vanishes(pts, i, j, n);
            let c = pts[i].1.val() * inv_val(fmod(prod_except(pts, i, pts[i].0.val() as int, n)));
            assert(c * 0 == 0);
        }
    }
    crate::sums::lemma_sum_congruent(f, g, n);
    assert forall|i: int| 0 <= i < n && i != j implies #[trigger] g(i) == 0 by {}
    lemma_sum_single(g, n, j);
    // The term at `j` is `y_j * D^(-1) * D` with `D != 0`.
    let dd = prod_except(pts, j, x, n);
    let fd = fmod(dd);
    let iv = inv_val(fd);
    let y = pts[j].1.val() as int;
    lemma_prod_except_nonzero(pts, j, n);
    lemma_mod_twice(dd, md);
    crate::generator::lemma_inv_val_correct(fd);
    lemma_mul_mod_noop_general(dd, iv, md);
    assert(fmod(dd * iv) == 1);
    assert(f(j) == y * iv * dd);
    assert(y * iv * dd == y * (dd * iv)) by (nonlinear_arith);
    lemma_mul_mod_noop_general(y, dd * iv, md);
    assert(pts[j].1.val() < MODULUS);
    lemma_small_mod(y as nat, MODULUS as nat);
}

} // verus!
