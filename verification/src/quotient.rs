//! The OOD quotient: given constraints `S = {(x_i, y_i)}` and `f`, the
//! quotient `(f - P_S) / V_S`, where `P_S` interpolates `S` and
//! `V_S(X) = prod_i (X - x_i)` vanishes on the constraint points.
use crate::arith::{lemma_mod_add_congr, lemma_mod_mul_congr, lemma_mod_sub_congr};
use crate::decode::copy_coeffs;
use crate::domain::EvaluationDomain;
use crate::fft::inv_val;
use crate::field::{fmod, lemma_from_val, lemma_val_eq, Fp, MODULUS};
use crate::interpolate::{distinct_xs, lagrange_interpolate, lagrange_value, points_are_canonical};
use crate::polynomial::{is_stripped, poly_eval, strip, sub_seq, UnivariatePoly};
use vstd::arithmetic::div_mod::{lemma_mod_twice, lemma_small_mod};
use vstd::arithmetic::power::pow;
use vstd::prelude::*;

verus! {

/// `prod_{i < k} (x - x_i)`, reduced modulo `p` after every factor.
pub open spec fn vanishing(points: Seq<(Fp, Fp)>, x: int, k: nat) -> int
    decreases k,
{
    if k == 0 {
        1
    } else {
        fmod(vanishing(points, x, (k - 1) as nat) * fmod(x - points[k - 1].0.val()))
    }
}

/// The quotient value at a domain point `x` with table entry `f_x`:
/// `(f_x - P_S(x)) * V_S(x)^(p-2)`.
pub open spec fn quotient_value(f_x: int, points: Seq<(Fp, Fp)>, x: int) -> int {
    fmod(fmod(f_x - fmod(lagrange_value(points, x))) * inv_val(vanishing(points, x, points.len())))
}

/// The quotient of an evaluation table on `domain` by the constraints `points`.
pub fn quotient(evals: &[Fp], domain: &EvaluationDomain, points: &[(Fp, Fp)]) -> (r: Vec<Fp>)
    requires
        evals@.len() == domain.spec_size(),
        1 <= points@.len() < usize::MAX,
        distinct_xs(points@),
        forall|j: int, i: int|
            0 <= j < domain.spec_size() && 0 <= i < points@.len() ==> domain.point(j) != points@[i].0.val(),
    ensures
        r@.len() == evals@.len(),
        forall|j: int| 0 <= j < r@.len() ==> (#[trigger] r@[j]).val() == quotient_value(
            evals@[j].val() as int,
            points@,
            domain.point(j),
        ),
{
    let p_s = lagrange_interpolate(points);
    let n = domain.size();
    let mut out: Vec<Fp> = Vec::new();
    let mut j: usize = 0;
    while j < n
        invariant
            j <= n,
            n == domain.spec_size(),
            n == evals@.len(),
            forall|x: int| #[trigger] fmod(poly_eval(p_s@, x)) == fmod(lagrange_value(points@, x)),
            out@.len() == j,
            forall|jj: int| 0 <= jj < j ==> (#[trigger] out@[jj]).val() == quotient_value(
                evals@[jj].val() as int,
                points@,
                domain.point(jj),
            ),
        decreases n - j,
    {
        let l_j = domain.element(j);
        let mut denom = Fp::one();
        let mut i: usize = 0;
        proof {
            lemma_small_mod(1, MODULUS as nat);
        }
        while i < points.len()
            invariant
                i <= points@.len(),
                l_j.val() == domain.point(j as int),
                denom.val() == vanishing(points@, l_j.val() as int, i as nat),
            decreases points@.len() - i,
        {
            let x_i = points[i].0;
            let factor = l_j - x_i;
            let next = denom * factor;
            proof {
                lemma_from_val(((l_j.val() - x_i.val()) % (MODULUS as int)) as nat);
                lemma_from_val((denom.val() * factor.val()) % (MODULUS as nat));
            }
            denom = next;
            i = i + 1;
        }
        let denom_inv = match denom.inverse() {
            Some(v) => v,
            None => Fp::zero(),
        };
        proof {
            if denom.val() == 0 {
                vstd::arithmetic::power::lemma0_pow((MODULUS - 2) as nat);
                lemma_small_mod(0, MODULUS as nat);
            }
        }
        let pv = p_s.evaluate(l_j);
        let numer = evals[j] - pv;
        let v = numer * denom_inv;
        proof {
            let mm = MODULUS as int;
            let lv = lagrange_value(points@, l_j.val() as int);
            lemma_from_val(((evals@[j as int].val() - pv.val()) % mm) as nat);
            lemma_from_val((numer.val() * denom_inv.val()) % (MODULUS as nat));
            assert(pv.val() == fmod(lv));
        }
        out.push(v);
        j = j + 1;
    }
    out
}

/// One Horner step of synthetic division, in modular form.
proof fn lemma_synth_step(ci: int, c: int, cp: int, qp: int, sp: int, a: int, x: int)
    requires
        fmod(sp) == fmod((x - a) * qp + c),
        fmod(cp) == fmod(ci + a * c),
    ensures
        fmod(ci + x * sp) == fmod((x - a) * (c + x * qp) + cp),
{
    let m = MODULUS as int;
    lemma_mod_mul_congr(x, x, sp, (x - a) * qp + c, m);
    lemma_mod_add_congr(ci, ci, x * sp, x * ((x - a) * qp + c), m);
    assert(ci + x * ((x - a) * qp + c) == (x - a) * (c + x * qp) + (ci + a * c)) by (nonlinear_arith);
    lemma_mod_add_congr((x - a) * (c + x * qp), (x - a) * (c + x * qp), ci + a * c, cp, m);
}

/// Divide by `(X - a)`: the quotient when `coeffs(a) = 0`, otherwise the
/// non-zero remainder (a constant polynomial always gives its constant).
fn synthetic_divide(coeffs: &[Fp], a: Fp) -> (r: Result<Vec<Fp>, Fp>)
    ensures
        coeffs@.len() == 0 ==> (r matches Ok(q) && q@.len() == 0),
        coeffs@.len() == 1 ==> r == Err::<Vec<Fp>, Fp>(coeffs@[0]),
        coeffs@.len() == 1 ==> coeffs@[0].val() == fmod(poly_eval(coeffs@, a.val() as int)),
        coeffs@.len() >= 2 ==> match r {
            Ok(q) => q@.len() == coeffs@.len() - 1 && q@.last() == coeffs@.last()
                && fmod(poly_eval(coeffs@, a.val() as int)) == 0
                && forall|x: int| #[trigger] fmod(poly_eval(coeffs@, x)) == fmod((x - a.val()) * poly_eval(q@, x)),
            Err(rem) => rem.val() == fmod(poly_eval(coeffs@, a.val() as int)) && rem.val() != 0,
        },
{
    if coeffs.len() == 0 {
        return Ok(Vec::new());
    }
    let n = coeffs.len() - 1;
    if n == 0 {
        let c0 = coeffs[0];
        proof {
            use_type_invariant(&c0);
            crate::field::lemma_canonical(c0);
            assert(coeffs@.drop_first().len() == 0);
            let av = a.val() as int;
            assert(poly_eval(coeffs@.drop_first(), av) == 0);
            assert(av * 0 == 0);
            assert(poly_eval(coeffs@, av) == c0.val());
            lemma_small_mod(c0.val(), MODULUS as nat);
        }
        return Err(c0);
    }
    let ghost c = coeffs@;
    let ghost av = a.val() as int;
    let ghost len = coeffs@.len() as int;
    let mut quot: Vec<Fp> = Vec::new();
    let mut t: usize = 0;
    while t < n
        invariant
            t <= n,
            quot@.len() == t,
        decreases n - t,
    {
        quot.push(Fp::zero());
        t = t + 1;
    }
    let mut carry = coeffs[n];
    quot.set(n - 1, carry);
    proof {
        use_type_invariant(&a);
        crate::field::lemma_canonical(a);
        assert forall|x: int| #[trigger] fmod(poly_eval(c.subrange(n as int, len), x)) == fmod(
            (x - av) * poly_eval(quot@.subrange(n as int, n as int), x) + carry.val(),
        ) by {
            assert(c.subrange(n as int, len).drop_first() =~= Seq::<Fp>::empty());
            assert(quot@.subrange(n as int, n as int) =~= Seq::<Fp>::empty());
            let sr = c.subrange(n as int, len);
            assert(sr.len() == 1);
            assert(sr[0] == c[n as int]);
            assert(poly_eval(sr.drop_first(), x) == 0);
            assert(poly_eval(sr, x) == c[n as int].val() + x * 0);
            assert(x * 0 == 0);
            assert((x - av) * 0 == 0);
            assert(c[n as int] == carry);
        }
    }
    let mut i: usize = n - 1;
    while i >= 1
        invariant
            i <= n - 1,
            n + 1 == len,
            len == c.len(),
            c == coeffs@,
            quot@.len() == n,
            quot@[n - 1] == coeffs@[n as int],
            av == a.val(),
            quot@[i as int] == carry,
            forall|x: int| #[trigger] fmod(poly_eval(c.subrange(i + 1, len), x)) == fmod(
                (x - av) * poly_eval(quot@.subrange(i + 1, n as int), x) + carry.val(),
            ),
        decreases i,
    {
        let ghost old_carry = carry;
        let ghost q_old = quot@;
        let prod = a * carry;
        let next = coeffs[i] + prod;
        proof {
            lemma_from_val((a.val() * carry.val()) % (MODULUS as nat));
            lemma_from_val((coeffs@[i as int].val() + prod.val()) % (MODULUS as nat));
        }
        carry = next;
        quot.set(i - 1, carry);
        proof {
            assert forall|x: int| #[trigger] fmod(poly_eval(c.subrange(i as int, len), x)) == fmod(
                (x - av) * poly_eval(quot@.subrange(i as int, n as int), x) + carry.val(),
            ) by {
                assert(c.subrange(i as int, len).drop_first() =~= c.subrange(i + 1, len));
                assert(quot@.subrange(i as int, n as int).drop_first() =~= q_old.subrange(i + 1, n as int));
                assert(quot@.subrange(i + 1, n as int) =~= q_old.subrange(i + 1, n as int));
                let m = MODULUS as int;
                let cv = old_carry.val() as int;
                lemma_mod_twice(av * cv, m);
                lemma_mod_add_congr(c[i as int].val() as int, c[i as int].val() as int, prod.val() as int, av * cv, m);
                lemma_synth_step(
                    c[i as int].val() as int,
                    cv,
                    carry.val() as int,
                    poly_eval(q_old.subrange(i + 1, n as int), x),
                    poly_eval(c.subrange(i + 1, len), x),
                    av,
                    x,
                );
            }
        }
        i = i - 1;
    }
    let prod = a * carry;
    let remainder = coeffs[0] + prod;
    let ghost rem_v = remainder.val() as int;
    proof {
        lemma_from_val((a.val() * carry.val()) % (MODULUS as nat));
        lemma_from_val((coeffs@[0].val() + prod.val()) % (MODULUS as nat));
        assert(i == 0);
        assert forall|x: int| #[trigger] fmod(poly_eval(c, x)) == fmod((x - av) * poly_eval(quot@, x) + rem_v) by {
            assert(c.subrange(0, len) =~= c);
            assert(c.drop_first() =~= c.subrange(1, len));
            assert(quot@.subrange(0, n as int) =~= quot@);
            assert(quot@.drop_first() =~= quot@.subrange(1, n as int));
            let m = MODULUS as int;
            let cv = carry.val() as int;
            lemma_mod_twice(av * cv, m);
            lemma_mod_add_congr(c[0].val() as int, c[0].val() as int, prod.val() as int, av * cv, m);
            lemma_synth_step(
                c[0].val() as int,
                cv,
                rem_v,
                poly_eval(quot@.subrange(1, n as int), x),
                poly_eval(c.subrange(1, len), x),
                av,
                x,
            );
        }
        // at x = a the quotient term vanishes
        assert(fmod(poly_eval(c, av)) == fmod((av - av) * poly_eval(quot@, av) + rem_v));
        assert((av - av) * poly_eval(quot@, av) == 0);
        lemma_small_mod(rem_v as nat, MODULUS as nat);
    }
    let zero = Fp::zero();
    if remainder == zero {
        proof {
            lemma_val_eq(remainder, zero);
            assert forall|x: int| #[trigger] fmod(poly_eval(c, x)) == fmod((x - av) * poly_eval(quot@, x)) by {
                assert(fmod((x - av) * poly_eval(quot@, x) + rem_v) == fmod((x - av) * poly_eval(quot@, x)));
            }
        }
        Ok(quot)
    } else {
        proof {
            lemma_val_eq(remainder, zero);
        }
        Err(remainder)
    }
}

/// The quotient polynomial `(poly - P_S) / V_S`, dividing by `(X - x_i)`
/// one constraint at a time. The constraints must agree with `poly`
/// (`poly(x_i) = y_i`); every division is then exact.
pub fn poly_quotient(poly: &UnivariatePoly, points: &[(Fp, Fp)]) -> (r: UnivariatePoly)
    requires
        1 <= points@.len() < usize::MAX,
        distinct_xs(points@),
        forall|j: int| 0 <= j < points@.len() ==> fmod(poly_eval(poly@, (#[trigger] points@[j]).0.val() as int))
            == points@[j].1.val(),
    ensures
        forall|x: int| #[trigger] fmod(poly_eval(r@, x) * vanishing(points@, x, points@.len()))
            == fmod(poly_eval(poly@, x) - lagrange_value(points@, x)),
        r@.len() + points@.len() <= poly@.len() || r@.len() == 0,
        poly@.len() < points@.len() ==> r@.len() == 0,
        is_stripped(poly@) && poly@.len() >= points@.len() ==> r@.len() + points@.len() == poly@.len(),
{
    points_are_canonical(points);
    crate::polynomial::coeffs_canonical(poly.coeffs());
    let p_s = lagrange_interpolate(points);
    let copy = copy_coeffs(poly.coeffs());
    let g = UnivariatePoly::from_coeffs_unstripped(copy) - p_s;
    let mut current: Vec<Fp> = copy_coeffs(g.coeffs());
    let ghost gv = g@;
    proof {
        crate::polynomial::lemma_strip(sub_seq(poly@, p_s@));
        if is_stripped(poly@) && poly@.len() > points@.len() {
            // The top coefficient of `poly` survives the subtraction of `P_S`.
            let sq = sub_seq(poly@, p_s@);
            let top = poly@.len() - 1;
            assert(sq.len() == poly@.len());
            assert(crate::polynomial::coef(p_s@, top) == 0);
            lemma_small_mod(poly@[top].val(), MODULUS as nat);
            lemma_from_val(poly@[top].val());
            assert(sq.last().val() == poly@.last().val());
            assert(current@.len() == poly@.len());
        }
        // `g = poly - P_S` vanishes at every constraint point.
        assert forall|k: int| 0 <= k < points@.len() implies fmod(
            poly_eval(current@, (#[trigger] points@[k]).0.val() as int),
        ) == 0 by {
            let xk = points@[k].0.val() as int;
            let yk = points@[k].1.val() as int;
            crate::poly_laws::lemma_eval_sub(poly@, p_s@, xk);
            crate::polynomial::lemma_poly_eval_strip(sub_seq(poly@, p_s@), xk);
            let m = MODULUS as int;
            lemma_mod_sub_congr(poly_eval(poly@, xk), yk, poly_eval(p_s@, xk), yk, m);
            assert(yk - yk == 0);
            lemma_small_mod(0, MODULUS as nat);
        }
    }
    proof {
        assert forall|x: int| #[trigger] fmod(poly_eval(current@, x) * vanishing(points@, x, 0)) == fmod(
            poly_eval(poly@, x) - lagrange_value(points@, x),
        ) by {
            crate::poly_laws::lemma_eval_sub(poly@, p_s@, x);
            crate::polynomial::lemma_poly_eval_strip(sub_seq(poly@, p_s@), x);
            assert(fmod(poly_eval(p_s@, x)) == fmod(lagrange_value(points@, x)));
            let m = MODULUS as int;
            lemma_mod_sub_congr(poly_eval(poly@, x), poly_eval(poly@, x), poly_eval(p_s@, x), lagrange_value(points@, x), m);
        }
    }
    let mut i: usize = 0;
    while i < points.len()
        invariant
            i <= points@.len(),
            distinct_xs(points@),
            forall|k: int| 0 <= k < points@.len() ==> (#[trigger] points@[k]).0.val() < MODULUS,
            is_stripped(current@),
            forall|k: int| i <= k < points@.len() ==> fmod(poly_eval(current@, (#[trigger] points@[k]).0.val() as int))
                == 0,
            current@.len() + i <= poly@.len() || current@.len() + i <= points@.len(),
            is_stripped(poly@) && poly@.len() > points@.len() ==> current@.len() + i == poly@.len(),
            forall|x: int| fmod(#[trigger] poly_eval(current@, x) * vanishing(points@, x, i as nat)) == fmod(
                poly_eval(poly@, x) - lagrange_value(points@, x),
            ),
        decreases points@.len() - i,
    {
        let x_i = points[i].0;
        let ghost before = current@;
        match synthetic_divide(current.as_slice(), x_i) {
            Ok(q) => {
                current = q;
                proof {
                    // The remaining constraint points stay roots of the quotient.
                    assert forall|k: int| i + 1 <= k < points@.len() implies fmod(
                        poly_eval(current@, (#[trigger] points@[k]).0.val() as int),
                    ) == 0 by {
                        let xk = points@[k].0.val() as int;
                        if before.len() >= 2 {
                            let d = xk - x_i.val();
                            assert(points@[i as int].0 == x_i);
                            assert(d != 0) by {
                                if d == 0 {
                                    lemma_val_eq(points@[k].0, x_i);
                                    assert(points@[i as int].0 != points@[k].0);
                                }
                            }
                            assert(fmod(d) != 0) by {
                                if fmod(d) == 0 {
                                    let m = MODULUS as int;
                                    vstd::arithmetic::div_mod::lemma_fundamental_div_mod(d, m);
                                    let qq = d / m;
                                    assert(false) by (nonlinear_arith)
                                        requires
                                            d == m * qq + 0,
                                            d != 0,
                                            -m < d < m,
                                    ;
                                }
                            }
                            assert(fmod(poly_eval(before, xk)) == fmod(d * poly_eval(current@, xk)));
                            crate::generator::lemma_no_zero_divisors(d, poly_eval(current@, xk));
                        } else {
                            assert(current@.len() == 0);
                            lemma_small_mod(0, MODULUS as nat);
                        }
                    }
                    if before.len() >= 2 {
                        assert forall|x: int| #[trigger] fmod(poly_eval(current@, x) * vanishing(points@, x, (i + 1) as nat))
                            == fmod(poly_eval(poly@, x) - lagrange_value(points@, x)) by {
                            let m = MODULUS as int;
                            let qv = poly_eval(current@, x);
                            let vi = vanishing(points@, x, i as nat);
                            let d = x - x_i.val();
                            assert(vanishing(points@, x, (i + 1) as nat) == fmod(vi * fmod(d)));
                            assert(fmod(poly_eval(before, x)) == fmod(d * qv));
                            lemma_mod_twice(vi * fmod(d), m);
                            lemma_mod_twice(d, m);
                            lemma_mod_mul_congr(vi, vi, fmod(d), d, m);
                            lemma_mod_mul_congr(qv, qv, fmod(vi * fmod(d)), vi * d, m);
                            lemma_mod_mul_congr(poly_eval(before, x), d * qv, vi, vi, m);
                            assert(qv * (vi * d) == (d * qv) * vi) by (nonlinear_arith);
                            assert(poly_eval(before, x) * vi == vi * poly_eval(before, x)) by (nonlinear_arith);
                            assert(fmod(poly_eval(before, x) * vanishing(points@, x, i as nat)) == fmod(
                                poly_eval(poly@, x) - lagrange_value(points@, x),
                            ));
                        }
                    } else {
                        assert forall|x: int| #[trigger] fmod(poly_eval(current@, x) * vanishing(points@, x, (i + 1) as nat))
                            == fmod(poly_eval(poly@, x) - lagrange_value(points@, x)) by {
                            assert(fmod(poly_eval(before, x) * vanishing(points@, x, i as nat)) == fmod(
                                poly_eval(poly@, x) - lagrange_value(points@, x),
                            ));
                            assert(poly_eval(current@, x) == 0);
                            assert(poly_eval(before, x) == 0);
                            vstd::arithmetic::mul::lemma_mul_basics(vanishing(points@, x, i as nat));
                            vstd::arithmetic::mul::lemma_mul_basics(vanishing(points@, x, (i + 1) as nat));
                        }
                    }
                }
            },
            Err(rem) => {
                proof {
                    // `before(x_i) = 0`, so the division cannot leave a remainder.
                    assert(points@[i as int].0 == x_i);
                    assert(fmod(poly_eval(before, x_i.val() as int)) == 0);
                    if before.len() == 1 {
                        assert(before.last() == before[0]);
                    }
                }
                return UnivariatePoly::zero();
            },
        }
        assert forall|x: int| fmod(#[trigger] poly_eval(current@, x) * vanishing(points@, x, (i + 1) as nat)) == fmod(
            poly_eval(poly@, x) - lagrange_value(points@, x),
        ) by {
            assert(fmod(poly_eval(current@, x) * vanishing(points@, x, (i + 1) as nat)) == fmod(
                poly_eval(poly@, x) - lagrange_value(points@, x)));
        }
        i = i + 1;
    }
    let ghost cv = current@;
    let r = UnivariatePoly::new(current);
    proof {
        crate::polynomial::lemma_strip(cv);
        assert forall|x: int| #[trigger] fmod(poly_eval(r@, x) * vanishing(points@, x, points@.len())) == fmod(
            poly_eval(poly@, x) - lagrange_value(points@, x),
        ) by {
            crate::polynomial::lemma_poly_eval_strip(cv, x);
            assert(fmod(poly_eval(cv, x) * vanishing(points@, x, points@.len())) == fmod(
                poly_eval(poly@, x) - lagrange_value(points@, x),
            ));
        }
    }
    r
}

/// The vanishing polynomial of the points is non-zero away from them.
pub proof fn lemma_vanishing_nonzero(points: Seq<(Fp, Fp)>, x: int, k: nat)
    requires
        k <= points.len(),
        forall|i: int| 0 <= i < k ==> fmod(x - (#[trigger] points[i]).0.val()) != 0,
    ensures
        vanishing(points, x, k) != 0,
        0 <= vanishing(points, x, k) < MODULUS,
    decreases k,
{
    if k == 0 {
    } else {
        lemma_vanishing_nonzero(points, x, (k - 1) as nat);
        let v = vanishing(points, x, (k - 1) as nat);
        let f = fmod(x - points[k - 1].0.val());
        vstd::arithmetic::div_mod::lemma_mod_bound(v * f, MODULUS as int);
        if fmod(v * f) == 0 {
            crate::generator::lemma_no_zero_divisors(v, f);
            lemma_small_mod(v as nat, MODULUS as nat);
            lemma_mod_twice(x - points[k - 1].0.val(), MODULUS as int);
        }
    }
}

/// The quotient table agrees with the quotient polynomial: at a point `x`
/// off the constraint points, where `q V_S = f - P_S` holds, the table
/// entry computed from `f(x)` is `q(x)`.
pub proof fn lemma_quotient_value_is_quotient(q: Seq<Fp>, f: Seq<Fp>, points: Seq<(Fp, Fp)>, x: int)
    requires
        forall|i: int| 0 <= i < points.len() ==> fmod(x - (#[trigger] points[i]).0.val()) != 0,
        fmod(poly_eval(q, x) * vanishing(points, x, points.len())) == fmod(poly_eval(f, x) - lagrange_value(points, x)),
    ensures
        quotient_value(fmod(poly_eval(f, x)), points, x) == fmod(poly_eval(q, x)),
{
    let m = MODULUS as int;
    let v = vanishing(points, x, points.len());
    lemma_vanishing_nonzero(points, x, points.len());
    lemma_small_mod(v as nat, MODULUS as nat);
    crate::generator::lemma_inv_val_correct(v);
    let iv = inv_val(v);
    let fx = poly_eval(f, x);
    let lx = lagrange_value(points, x);
    let qx = poly_eval(q, x);
    // fmod(f(x)) - fmod(P(x)) == f(x) - P(x) modulo p
    lemma_mod_twice(fx, m);
    lemma_mod_twice(lx, m);
    lemma_mod_sub_congr(fmod(fx), fx, fmod(lx), lx, m);
    lemma_mod_twice(fmod(fx) - fmod(lx), m);
    lemma_mod_mul_congr(fmod(fmod(fx) - fmod(lx)), qx * v, iv, iv, m);
    assert((qx * v) * iv == qx * (v * iv)) by (nonlinear_arith);
    lemma_mod_mul_congr(qx, qx, v * iv, 1, m);
    assert(qx * 1 == qx);
}

} // verus!
