//! Reed-Solomon decoding: interpolation of a clean codeword with the
//! inverse FFT, and Berlekamp-Welch unique decoding of a noisy one
//! (a linear system for the key equation `Q(x_i) = y_i E(x_i)`, solved
//! by Gauss-Jordan elimination, then the division `P = Q / E`).
use crate::arith::{lemma_mod_add_congr, lemma_mod_mul_congr, lemma_mod_sub_congr};
use crate::domain::EvaluationDomain;
use crate::fft::{ifft_domain_values, ifft_on_domain};
use crate::field::{fmod, lemma_from_val, lemma_val_eq, Fp, MODULUS};
use crate::decoding_laws::{
    canonical_coeffs, close_codeword, decodable, disagreements, error_locator, lemma_bw_agrees_within_radius,
    lemma_divmod_coefficients,
    lemma_error_locator, lemma_exact_division, lemma_key_equation_factors, within_radius,
};
use crate::poly_laws::lemma_eval_mul;
use crate::polynomial::{
    add_seq, coef, coeffs_canonical, is_stripped, lemma_poly_eval_drop_last, lemma_poly_eval_strip, lemma_strip, mul_seq, poly_eval,
    strip, UnivariatePoly,
};
use vstd::arithmetic::div_mod::{lemma_mod_twice, lemma_mul_mod_noop_general, lemma_small_mod};
use vstd::arithmetic::power::pow;
use vstd::prelude::*;

verus! {

/// The coefficients recovered from a codeword: the inverse FFT on the
/// domain, truncated to the first `degree_bound` coefficients.
pub open spec fn interpolated(evals: Seq<Fp>, domain: EvaluationDomain, degree_bound: nat) -> Seq<Fp> {
    let c = ifft_domain_values(evals, domain);
    if degree_bound < c.len() {
        c.subrange(0, degree_bound as int)
    } else {
        c
    }
}

/// Recover the polynomial of a clean codeword: inverse FFT on the domain,
/// truncated to `degree_bound` coefficients.
pub fn decode_via_interpolation(
    evals: &[Fp],
    domain: &EvaluationDomain,
    degree_bound: usize,
) -> (r: UnivariatePoly)
    requires
        evals@.len() == domain.spec_size(),
    ensures
        r@ == strip(interpolated(evals@, *domain, degree_bound as nat)),
{
    let mut coeffs = ifft_on_domain(evals, domain);
    coeffs.truncate(degree_bound);
    assert(coeffs@ =~= interpolated(evals@, *domain, degree_bound as nat));
    UnivariatePoly::new(coeffs)
}

/// The polynomial after replacing coefficient `k` changes by the difference times `x^k`.
pub proof fn lemma_poly_eval_update(s: Seq<Fp>, k: int, v: Fp, x: int)
    requires
        0 <= k < s.len(),
    ensures
        poly_eval(s.update(k, v), x) == poly_eval(s, x) + (v.val() - s[k].val()) * pow(x, k as nat),
    decreases k,
{
    reveal(pow);
    if k == 0 {
        assert(s.update(k, v).drop_first() =~= s.drop_first());
        assert(pow(x, 0) == 1);
    } else {
        assert(s.update(k, v).drop_first() =~= s.drop_first().update(k - 1, v));
        lemma_poly_eval_update(s.drop_first(), k - 1, v, x);
        let d = v.val() - s[k].val();
        let p1 = pow(x, (k - 1) as nat);
        assert(pow(x, k as nat) == x * p1);
        let rest = poly_eval(s.drop_first(), x);
        assert(x * (rest + d * p1) == x * rest + d * (x * p1)) by (nonlinear_arith);
    }
}

/// `d` is invertible through its computed inverse `d^(p-2)`: `d * d^(p-2) = 1` in `F_p`.
pub open spec fn is_unit(d: Fp) -> bool {
    fmod(d.val() * (pow(d.val() as int, (MODULUS - 2) as nat) % (MODULUS as int))) == 1
}

/// Exact copy of a coefficient slice.
pub fn copy_coeffs(s: &[Fp]) -> (r: Vec<Fp>)
    ensures
        r@ == s@,
{
    let mut out: Vec<Fp> = Vec::new();
    let mut i: usize = 0;
    while i < s.len()
        invariant
            i <= s@.len(),
            out@ == s@.subrange(0, i as int),
        decreases s@.len() - i,
    {
        out.push(s[i]);
        i = i + 1;
        assert(out@ =~= s@.subrange(0, i as int));
    }
    assert(out@ =~= s@);
    out
}

/// Division with remainder, `dividend = quotient * divisor + remainder`,
/// by schoolbook long division. The divisor must be non-zero and stripped.
/// The identity holds at every point and, below `p` coefficients, on the
/// coefficients themselves.
pub fn poly_divmod(dividend: &UnivariatePoly, divisor: &UnivariatePoly) -> (r: (UnivariatePoly, UnivariatePoly))
    requires
        divisor@.len() > 0,
        is_stripped(divisor@),
    ensures
        forall|x: int| #[trigger] fmod(poly_eval(dividend@, x)) == fmod(
            poly_eval(r.0@, x) * poly_eval(divisor@, x) + poly_eval(r.1@, x),
        ),
        is_stripped(r.0@),
        r.0@.len() + divisor@.len() <= dividend@.len() + 1 || r.0@.len() == 0,
        is_unit(divisor@.last()) ==> r.1@.len() < divisor@.len(),
        r.1@.len() <= dividend@.len(),
        is_stripped(dividend@) ==> is_stripped(r.1@),
        dividend@.len() + divisor@.len() <= MODULUS ==> forall|j: int|
            #[trigger] coef(dividend@, j) == coef(add_seq(mul_seq(r.0@, divisor@), r.1@), j),
{
    coeffs_canonical(dividend.coeffs());
    let divisor_coeffs = divisor.coeffs();
    let divisor_deg = divisor_coeffs.len() - 1;
    let lead = divisor_coeffs[divisor_deg];
    let inv_opt = lead.inverse();
    let zero = Fp::zero();
    let one = Fp::one();
    proof {
        assert(lead == d_last(divisor@));
    }
    let lead_inv = match inv_opt {
        Some(y) => y,
        None => {
            proof {
                assert(false);
            }
            return (UnivariatePoly::zero(), UnivariatePoly::zero());
        },
    };
    let dividend_coeffs = dividend.coeffs();
    if dividend_coeffs.len() == 0 {
        proof {
            assert forall|x: int| #[trigger] fmod(poly_eval(dividend@, x)) == fmod(
                poly_eval(Seq::<Fp>::empty(), x) * poly_eval(divisor@, x) + poly_eval(Seq::<Fp>::empty(), x),
            ) by {}
        }
        let zq = UnivariatePoly::zero();
        let zr = UnivariatePoly::zero();
        proof {
            if dividend@.len() + divisor@.len() <= MODULUS {
                lemma_divmod_coefficients(dividend@, zq@, divisor@, zr@);
            }
        }
        return (zq, zr);
    }
    let dividend_deg = dividend_coeffs.len() - 1;
    let prod = lead * lead_inv;
    if dividend_deg < divisor_deg || !(prod == one) {
        let copy = copy_coeffs(dividend_coeffs);
        proof {
            assert forall|x: int| #[trigger] fmod(poly_eval(dividend@, x)) == fmod(
                poly_eval(Seq::<Fp>::empty(), x) * poly_eval(divisor@, x) + poly_eval(dividend@, x),
            ) by {}
            if is_unit(divisor@.last()) {
                lemma_from_val((lead.val() * lead_inv.val()) % (MODULUS as nat));
                lemma_val_eq(prod, one);
            }
        }
        let zq = UnivariatePoly::zero();
        let rr = UnivariatePoly::from_coeffs_unstripped(copy);
        proof {
            if dividend@.len() + divisor@.len() <= MODULUS {
                lemma_divmod_coefficients(dividend@, zq@, divisor@, rr@);
            }
        }
        return (zq, rr);
    }
    proof {
        lemma_from_val((lead.val() * lead_inv.val()) % (MODULUS as nat));
        lemma_val_eq(prod, one);
    }
    let ghost m = MODULUS as int;
    let ghost a = dividend@;
    let ghost d = divisor@;
    // Working remainder with the top zeros removed.
    let mut remainder: Vec<Fp> = copy_coeffs(dividend_coeffs);
    while remainder.len() > 0 && remainder[remainder.len() - 1] == zero
        invariant
            remainder@.len() <= a.len(),
            zero.val() == 0,
            forall|x: int| #[trigger] poly_eval(remainder@, x) == poly_eval(a, x),
        decreases remainder@.len(),
    {
        let ghost before = remainder@;
        remainder.pop();
        proof {
            assert forall|x: int| #[trigger] poly_eval(remainder@, x) == poly_eval(a, x) by {
                lemma_poly_eval_drop_last(before, x);
                assert(before.drop_last() =~= remainder@);
                lemma_val_eq(before.last(), zero);
            }
        }
    }
    proof {
        if remainder@.len() > 0 {
            lemma_val_eq(remainder@.last(), zero);
        }
    }
    let qlen = dividend_deg - divisor_deg + 1;
    let mut quotient: Vec<Fp> = Vec::new();
    let mut i: usize = 0;
    while i < qlen
        invariant
            i <= qlen,
            quotient@.len() == i,
            forall|j: int| 0 <= j < i ==> (#[trigger] quotient@[j]).val() == 0,
        decreases qlen - i,
    {
        quotient.push(Fp::zero());
        i = i + 1;
    }
    proof {
        assert forall|x: int| #[trigger] fmod(poly_eval(a, x)) == fmod(
            poly_eval(quotient@, x) * poly_eval(d, x) + poly_eval(remainder@, x),
        ) by {
            lemma_poly_eval_all_zero(quotient@, x);
        }
    }
    while remainder.len() > 0 && remainder.len() - 1 >= divisor_deg
        invariant
            divisor_coeffs@ == d,
            divisor_deg == d.len() - 1,
            zero.val() == 0,
            lead == d.last(),
            fmod((lead.val() * lead_inv.val()) as int) == 1,
            m == MODULUS as int,
            quotient@.len() == qlen,
            qlen + divisor_deg == a.len(),
            remainder@.len() <= a.len(),
            remainder@.len() == 0 || remainder@.last().val() != 0,
            forall|j: int| 0 <= j < quotient@.len() && j + divisor_deg + 1 <= remainder@.len() ==> (#[trigger] quotient@[j]).val() == 0,
            forall|x: int| #[trigger] fmod(poly_eval(a, x)) == fmod(
                poly_eval(quotient@, x) * poly_eval(d, x) + poly_eval(remainder@, x),
            ),
        decreases remainder@.len(),
    {
        let rem_deg = remainder.len() - 1;
        let lead_r = remainder[rem_deg];
        let q_coeff = lead_r * lead_inv;
        let q_deg = rem_deg - divisor_deg;
        let ghost q_before = quotient@;
        let ghost r_before = remainder@;
        assert(quotient@[q_deg as int].val() == 0);
        proof {
            lemma_from_val((lead_r.val() * lead_inv.val()) % (MODULUS as nat));
        }
        quotient.set(q_deg, q_coeff);
        let mut j: usize = 0;
        while j <= divisor_deg
            invariant
                divisor_coeffs@ == d,
                divisor_deg == d.len() - 1,
                j <= divisor_deg + 1,
                q_deg + divisor_deg == rem_deg,
                rem_deg + 1 == r_before.len(),
                remainder@.len() == r_before.len(),
                m == MODULUS as int,
                forall|t: int| 0 <= t < q_deg ==> remainder@[t] == r_before[t],
                forall|t: int| q_deg + j <= t < r_before.len() ==> remainder@[t] == r_before[t],
                forall|t: int| 0 <= t < j ==> (#[trigger] remainder@[q_deg + t]).val() == fmod(
                    r_before[q_deg + t].val() - q_coeff.val() * d[t].val(),
                ),
                forall|x: int| #[trigger] fmod(poly_eval(remainder@, x)) == fmod(
                    poly_eval(r_before, x) - q_coeff.val() * pow(x, q_deg as nat) * poly_eval(
                        d.subrange(0, j as int),
                        x,
                    ),
                ),
            decreases divisor_deg + 1 - j,
        {
            let idx = q_deg + j;
            let d_coeff = divisor_coeffs[j];
            let old_v = remainder[idx];
            let qd = q_coeff * d_coeff;
            let new_v = old_v - qd;
            let ghost r_prev = remainder@;
            remainder.set(idx, new_v);
            proof {
                lemma_from_val((q_coeff.val() * d_coeff.val()) % (MODULUS as nat));
                lemma_from_val(((old_v.val() - qd.val()) % m) as nat);
                assert forall|x: int| #[trigger] fmod(poly_eval(remainder@, x)) == fmod(
                    poly_eval(r_before, x) - q_coeff.val() * pow(x, q_deg as nat) * poly_eval(
                        d.subrange(0, j + 1),
                        x,
                    ),
                ) by {
                    lemma_poly_eval_update(r_prev, idx as int, new_v, x);
                    let pk = pow(x, q_deg as nat);
                    let pj = pow(x, j as nat);
                    let pij = pow(x, idx as nat);
                    vstd::arithmetic::power::lemma_pow_adds(x, q_deg as nat, j as nat);
                    assert(pij == pk * pj);
                    let dj = d.subrange(0, j + 1);
                    assert(dj.drop_last() =~= d.subrange(0, j as int));
                    lemma_poly_eval_drop_last(dj, x);
                    let e_prev = poly_eval(d.subrange(0, j as int), x);
                    let c = q_coeff.val() as int;
                    let dv = d_coeff.val() as int;
                    let ov = old_v.val() as int;
                    let nv = new_v.val() as int;
                    // nv == (ov - c * dv) mod p
                    assert(nv == (ov - ((c * dv) % m)) % m);
                    lemma_mod_sub_congr(ov, ov, (c * dv) % m, c * dv, m);
                    lemma_mod_twice(c * dv, m);
                    let pr = poly_eval(r_prev, x);
                    let rb = poly_eval(r_before, x);
                    assert(fmod(pr) == fmod(rb - c * pk * e_prev));
                    // poly_eval(remainder) == pr + (nv - ov) * pij
                    // target: rb - c * pk * (e_prev + dv * pj)
                    assert((nv - ov) * pij % m == (0 - c * dv) * pij % m) by {
                        lemma_mod_sub_congr(nv, ov - c * dv, ov, ov, m);
                        lemma_mod_twice(ov - c * dv, m);
                        lemma_mod_mul_congr(nv - ov, 0 - c * dv, pij, pij, m);
                    }
                    lemma_mod_add_congr(pr, pr, (nv - ov) * pij, (0 - c * dv) * pij, m);
                    // pr == rb - c*pk*e_prev  (mod m)
                    lemma_mod_add_congr(pr, rb - c * pk * e_prev, (0 - c * dv) * pij, (0 - c * dv) * pij, m);
                    assert(rb - c * pk * e_prev + (0 - c * dv) * pij == rb - c * pk * (e_prev + dv * pj))
                        by (nonlinear_arith)
                        requires
                            pij == pk * pj,
                    ;
                }
            }
            j = j + 1;
        }
        assert(d.subrange(0, d.len() as int) =~= d);
        proof {
            // The top coefficient cancels.
            let c = q_coeff.val() as int;
            let lr = lead_r.val() as int;
            let li = lead_inv.val() as int;
            let ld = lead.val() as int;
            assert(c == (lr * li) % m);
            assert(remainder@[q_deg + divisor_deg as int].val() == fmod(
                r_before[q_deg + divisor_deg as int].val() - q_coeff.val() * d[divisor_deg as int].val(),
            ));
            assert(remainder@[rem_deg as int].val() == fmod(lr - c * ld));
            assert(fmod(lr - c * ld) == 0) by {
                lemma_mod_mul_congr(c, lr * li, ld, ld, m);
                lemma_mod_twice(lr * li, m);
                assert(lr * li * ld == lr * (li * ld)) by (nonlinear_arith);
                assert(ld * li == li * ld) by (nonlinear_arith);
                lemma_mod_mul_congr(lr, lr, li * ld, 1, m);
                lemma_mod_sub_congr(lr, lr, c * ld, lr, m);
            }
            // The identity a = q * d + r is kept.
            assert forall|x: int| #[trigger] fmod(poly_eval(a, x)) == fmod(
                poly_eval(quotient@, x) * poly_eval(d, x) + poly_eval(remainder@, x),
            ) by {
                lemma_poly_eval_update(q_before, q_deg as int, q_coeff, x);
                assert(q_before[q_deg as int].val() == 0);
                let pk = pow(x, q_deg as nat);
                let c = q_coeff.val() as int;
                let qb = poly_eval(q_before, x);
                let dv = poly_eval(d, x);
                let rb = poly_eval(r_before, x);
                let rn = poly_eval(remainder@, x);
                assert(poly_eval(quotient@, x) == qb + c * pk);
                assert(fmod(rn) == fmod(rb - c * pk * poly_eval(d.subrange(0, d.len() as int), x)));
                assert(fmod(rn) == fmod(rb - c * pk * dv));
                assert(fmod(poly_eval(a, x)) == fmod(qb * dv + rb));
                lemma_mod_add_congr((qb + c * pk) * dv, (qb + c * pk) * dv, rn, rb - c * pk * dv, m);
                assert((qb + c * pk) * dv + (rb - c * pk * dv) == qb * dv + rb) by (nonlinear_arith);
                assert(((qb + c * pk) * dv + rn) % m == (qb * dv + rb) % m);
                assert(poly_eval(quotient@, x) * poly_eval(d, x) + poly_eval(remainder@, x) == (qb + c * pk)
                    * dv + rn);
            }
        }
        // Remove the new top zeros.
        while remainder.len() > 0 && remainder[remainder.len() - 1] == zero
            invariant
                remainder@.len() <= rem_deg + 1,
                zero.val() == 0,
                forall|x: int| #[trigger] fmod(poly_eval(a, x)) == fmod(
                    poly_eval(quotient@, x) * poly_eval(d, x) + poly_eval(remainder@, x),
                ),
                remainder@.len() == rem_deg + 1 ==> remainder@.last().val() == 0,
            decreases remainder@.len(),
        {
            let ghost before = remainder@;
            remainder.pop();
            proof {
                assert forall|x: int| #[trigger] fmod(poly_eval(a, x)) == fmod(
                    poly_eval(quotient@, x) * poly_eval(d, x) + poly_eval(remainder@, x),
                ) by {
                    lemma_poly_eval_drop_last(before, x);
                    assert(before.drop_last() =~= remainder@);
                    lemma_val_eq(before.last(), zero);
                    vstd::arithmetic::mul::lemma_mul_basics(pow(x, (before.len() - 1) as nat));
                    assert(poly_eval(before, x) == poly_eval(remainder@, x));
                }
            }
        }
        proof {
            if remainder@.len() == rem_deg + 1 {
                lemma_val_eq(remainder@.last(), zero);
            }
            if remainder@.len() > 0 {
                lemma_val_eq(remainder@.last(), zero);
            }
        }
    }
    let ghost qv = quotient@;
    let q = UnivariatePoly::new(quotient);
    let rpoly = UnivariatePoly::from_coeffs_unstripped(remainder);
    proof {
        lemma_strip(qv);
        assert forall|x: int| #[trigger] fmod(poly_eval(dividend@, x)) == fmod(
            poly_eval(q@, x) * poly_eval(divisor@, x) + poly_eval(rpoly@, x),
        ) by {
            lemma_poly_eval_strip(qv, x);
        }
        if dividend@.len() + divisor@.len() <= MODULUS {
            lemma_divmod_coefficients(dividend@, q@, divisor@, rpoly@);
        }
    }
    (q, rpoly)
}

/// The last entry of a sequence.
pub open spec fn d_last(s: Seq<Fp>) -> Fp {
    s[s.len() - 1]
}

/// A polynomial whose coefficients are all zero evaluates to zero.
pub proof fn lemma_poly_eval_all_zero(s: Seq<Fp>, x: int)
    requires
        forall|j: int| 0 <= j < s.len() ==> (#[trigger] s[j]).val() == 0,
    ensures
        poly_eval(s, x) == 0,
    decreases s.len(),
{
    if s.len() > 0 {
        assert(s[0].val() == 0);
        assert forall|j: int| 0 <= j < s.drop_first().len() implies (#[trigger] s.drop_first()[j]).val() == 0 by {
            assert(s.drop_first()[j] == s[j + 1]);
        }
        lemma_poly_eval_all_zero(s.drop_first(), x);
    }
}

/// `sum_{c < k} row[c] * x[c]` over the integers.
pub open spec fn dot(row: Seq<Fp>, x: Seq<Fp>, k: nat) -> int
    decreases k,
{
    if k == 0 {
        0
    } else {
        dot(row, x, (k - 1) as nat) + row[k - 1].val() * x[k - 1].val()
    }
}

/// `x` satisfies every row of the augmented system `a` (the last entry of a row is its right-hand side).
pub open spec fn aug_solves(a: Seq<Seq<Fp>>, x: Seq<Fp>, m: nat) -> bool {
    forall|r: int| 0 <= r < a.len() ==> #[trigger] fmod(dot(a[r], x, m)) == fmod(a[r][m as int].val() as int)
}

/// The rows of a matrix.
pub open spec fn rows_of(v: Seq<Vec<Fp>>) -> Seq<Seq<Fp>> {
    Seq::new(v.len(), |i: int| v[i]@)
}

/// `x` solves `matrix · x = rhs` over `F_p`.
pub open spec fn solves(matrix: Seq<Seq<Fp>>, rhs: Seq<Fp>, x: Seq<Fp>) -> bool {
    forall|r: int| 0 <= r < matrix.len() ==> #[trigger] fmod(dot(matrix[r], x, x.len())) == fmod(rhs[r].val() as int)
}

/// Every row of `matrix` has `m` entries.
pub open spec fn rectangular(matrix: Seq<Seq<Fp>>, m: nat) -> bool {
    forall|r: int| 0 <= r < matrix.len() ==> (#[trigger] matrix[r]).len() == m
}

/// The dot product only reads the first `k` entries of the row.
proof fn lemma_dot_prefix(a: Seq<Fp>, b: Seq<Fp>, x: Seq<Fp>, k: nat)
    requires
        forall|c: int| 0 <= c < k ==> a[c] == b[c],
    ensures
        dot(a, x, k) == dot(b, x, k),
    decreases k,
{
    if k > 0 {
        lemma_dot_prefix(a, b, x, (k - 1) as nat);
    }
}

/// Scaling a row scales its dot product.
proof fn lemma_dot_scale(row: Seq<Fp>, new: Seq<Fp>, x: Seq<Fp>, k: nat, s: int)
    requires
        forall|c: int| 0 <= c < k ==> (#[trigger] new[c]).val() == fmod(row[c].val() * s),
    ensures
        fmod(dot(new, x, k)) == fmod(s * dot(row, x, k)),
    decreases k,
{
    let m = MODULUS as int;
    if k > 0 {
        let j = (k - 1) as int;
        lemma_dot_scale(row, new, x, (k - 1) as nat, s);
        let dn = dot(new, x, (k - 1) as nat);
        let dr = dot(row, x, (k - 1) as nat);
        let nj = new[j].val() as int;
        let rj = row[j].val() as int;
        let xj = x[j].val() as int;
        lemma_mod_twice(rj * s, m);
        lemma_mod_mul_congr(nj, rj * s, xj, xj, m);
        lemma_mod_add_congr(dn, s * dr, nj * xj, rj * s * xj, m);
        assert(s * dr + rj * s * xj == s * (dr + rj * xj)) by (nonlinear_arith);
    } else {
        assert(s * 0 == 0);
    }
}

/// Subtracting a multiple of another row subtracts the same multiple of its dot product.
proof fn lemma_dot_elim(row: Seq<Fp>, prow: Seq<Fp>, new: Seq<Fp>, x: Seq<Fp>, k: nat, f: int)
    requires
        forall|c: int| 0 <= c < k ==> (#[trigger] new[c]).val() == fmod(row[c].val() - f * prow[c].val()),
    ensures
        fmod(dot(new, x, k)) == fmod(dot(row, x, k) - f * dot(prow, x, k)),
    decreases k,
{
    let m = MODULUS as int;
    if k > 0 {
        let j = (k - 1) as int;
        lemma_dot_elim(row, prow, new, x, (k - 1) as nat, f);
        let dn = dot(new, x, (k - 1) as nat);
        let dr = dot(row, x, (k - 1) as nat);
        let dp = dot(prow, x, (k - 1) as nat);
        let nj = new[j].val() as int;
        let rj = row[j].val() as int;
        let pj = prow[j].val() as int;
        let xj = x[j].val() as int;
        lemma_mod_twice(rj - f * pj, m);
        lemma_mod_mul_congr(nj, rj - f * pj, xj, xj, m);
        lemma_mod_add_congr(dn, dr - f * dp, nj * xj, (rj - f * pj) * xj, m);
        assert(dr - f * dp + (rj - f * pj) * xj == (dr + rj * xj) - f * (dp + pj * xj)) by (nonlinear_arith);
    } else {
        assert(f * 0 == 0);
    }
}

/// A dot product whose terms vanish except at position `pc` equals the term there.
proof fn lemma_dot_single(row: Seq<Fp>, x: Seq<Fp>, k: nat, pc: int, v: int)
    requires
        forall|c: int| 0 <= c < k && c != pc ==> (#[trigger] row[c]).val() * x[c].val() == 0,
        0 <= pc < k ==> row[pc].val() * x[pc].val() == v,
    ensures
        dot(row, x, k) == (if 0 <= pc < k { v } else { 0 }),
    decreases k,
{
    if k > 0 {
        lemma_dot_single(row, x, (k - 1) as nat, pc, v);
        assert(row[k - 1].val() * x[k - 1].val() == (if pc == k - 1 { v } else { 0 }));
    }
}

/// A copy of row `r` of `a`.
fn copy_row(a: &Vec<Vec<Fp>>, r: usize) -> (out: Vec<Fp>)
    requires
        r < a@.len(),
    ensures
        out@ == a@[r as int]@,
{
    let mut out: Vec<Fp> = Vec::new();
    let mut i: usize = 0;
    while i < a[r].len()
        invariant
            r < a@.len(),
            i <= a@[r as int]@.len(),
            out@ == a@[r as int]@.subrange(0, i as int),
        decreases a@[r as int]@.len() - i,
    {
        out.push(a[r][i]);
        i = i + 1;
        assert(out@ =~= a@[r as int]@.subrange(0, i as int));
    }
    assert(out@ =~= a@[r as int]@);
    out
}

/// Solve `matrix · x = rhs` over `F_p` by Gauss-Jordan elimination.
/// A returned vector is a solution; variables without a pivot are set to `0`.
pub fn solve_linear_system(matrix: &[Vec<Fp>], rhs: &[Fp]) -> (r: Option<Vec<Fp>>)
    requires
        matrix@.len() == rhs@.len(),
        matrix@.len() > 0 ==> rectangular(rows_of(matrix@), matrix@[0]@.len()),
        matrix@.len() > 0 ==> matrix@[0]@.len() < usize::MAX,
    ensures
        r matches Some(x) ==> (matrix@.len() > 0 ==> x@.len() == matrix@[0]@.len()) && solves(
            rows_of(matrix@),
            rhs@,
            x@,
        ),
        matrix@.len() == 0 ==> (r matches Some(x) && x@.len() == 0),
        r is None ==> matrix@.len() > 0 && forall|x: Seq<Fp>|
            x.len() == matrix@[0]@.len() ==> !#[trigger] solves(rows_of(matrix@), rhs@, x),
{
    let n = matrix.len();
    if n == 0 {
        return Some(Vec::new());
    }
    let m = matrix[0].len();
    let ghost orig = Seq::new(n as nat, |i: int| matrix@[i]@.push(rhs@[i]));
    let mut aug: Vec<Vec<Fp>> = Vec::new();
    let mut i: usize = 0;
    while i < n
        invariant
            i <= n,
            n == matrix@.len(),
            n == rhs@.len(),
            m == matrix@[0]@.len(),
            rectangular(rows_of(matrix@), m as nat),
            orig == Seq::new(n as nat, |i: int| matrix@[i]@.push(rhs@[i])),
            aug@.len() == i,
            forall|t: int| 0 <= t < i ==> (#[trigger] aug@[t])@ == orig[t],
        decreases n - i,
    {
        let mut row: Vec<Fp> = Vec::new();
        let mut c: usize = 0;
        assert(rows_of(matrix@)[i as int] == matrix@[i as int]@);
        while c < m
            invariant
                c <= m,
                i < n,
                n == matrix@.len(),
                m == matrix@[i as int]@.len(),
                row@ == matrix@[i as int]@.subrange(0, c as int),
            decreases m - c,
        {
            row.push(matrix[i][c]);
            c = c + 1;
            assert(row@ =~= matrix@[i as int]@.subrange(0, c as int));
        }
        row.push(rhs[i]);
        assert(row@ =~= orig[i as int]);
        aug.push(row);
        i = i + 1;
    }
    proof {
        assert(rows_of(aug@) =~= orig);
        assert forall|r: int| 0 <= r < n implies (#[trigger] aug@[r])@.len() == m + 1 by {
            assert(rows_of(matrix@)[r] == matrix@[r]@);
        }
    }
    let ghost mut pcols: Seq<nat> = Seq::empty();
    let mut pivot_col_for_row: Vec<Option<usize>> = Vec::new();
    let mut t: usize = 0;
    while t < n
        invariant
            t <= n,
            pivot_col_for_row@.len() == t,
            forall|u: int| 0 <= u < t ==> (#[trigger] pivot_col_for_row@[u]) is None,
        decreases n - t,
    {
        pivot_col_for_row.push(None);
        t = t + 1;
    }
    let zero = Fp::zero();
    let one = Fp::one();
    let mut pivot_row: usize = 0;
    let mut col: usize = 0;
    while col < m && pivot_row < n
        invariant
            n == aug@.len(),
            n > 0,
            m < usize::MAX,
            zero.val() == 0,
            one.val() == 1,
            col <= m,
            pivot_row <= n,
            pivot_row <= col,
            forall|r: int| 0 <= r < n ==> (#[trigger] aug@[r])@.len() == m + 1,
            pivot_col_for_row@.len() == n,
            pcols.len() == pivot_row,
            forall|r: int| 0 <= r < n ==> (#[trigger] pivot_col_for_row@[r]) == (if r < pivot_row {
                Some(pcols[r] as usize)
            } else {
                None
            }),
            forall|r: int| 0 <= r < pivot_row ==> (#[trigger] pcols[r]) < col,
            forall|r1: int, r2: int| 0 <= r1 < r2 < pivot_row ==> pcols[r1] < pcols[r2],
            forall|r: int, rr: int|
                0 <= r < pivot_row && 0 <= rr < n ==> (#[trigger] aug@[rr]@[pcols[r] as int]).val() == (if rr
                    == r {
                    1int
                } else {
                    0int
                }),
            forall|rr: int, c: int| pivot_row <= rr < n && 0 <= c < col ==> (#[trigger] aug@[rr]@[c]).val() == 0,
            forall|x: Seq<Fp>| #[trigger] aug_solves(rows_of(aug@), x, m as nat) ==> aug_solves(orig, x, m as nat),
            forall|x: Seq<Fp>| #[trigger] aug_solves(orig, x, m as nat) ==> aug_solves(rows_of(aug@), x, m as nat),
        decreases m - col,
    {
        // Find a pivot at or below `pivot_row`.
        let mut pivot: usize = pivot_row;
        while pivot < n && aug[pivot][col] == zero
            invariant
                pivot_row <= pivot <= n,
                n == aug@.len(),
                col < m,
                zero.val() == 0,
                forall|r: int| 0 <= r < n ==> (#[trigger] aug@[r])@.len() == m + 1,
                forall|r: int| pivot_row <= r < pivot ==> (#[trigger] aug@[r]@[col as int]).val() == 0,
            decreases n - pivot,
        {
            proof {
                lemma_val_eq(aug@[pivot as int]@[col as int], zero);
            }
            pivot = pivot + 1;
        }
        if pivot == n {
            col = col + 1;
            continue;
        }
        proof {
            lemma_val_eq(aug@[pivot as int]@[col as int], zero);
        }
        // Swap rows `pivot_row` and `pivot`.
        let row_a = copy_row(&aug, pivot_row);
        let row_b = copy_row(&aug, pivot);
        let ghost before_swap = aug@;
        aug.set(pivot_row, row_b);
        aug.set(pivot, row_a);
        proof {
            assert forall|rr: int| 0 <= rr < n implies (#[trigger] aug@[rr])@ == before_swap[if rr == pivot_row {
                pivot as int
            } else if rr == pivot {
                pivot_row as int
            } else {
                rr
            }]@ by {}
            assert forall|x: Seq<Fp>| #[trigger] aug_solves(rows_of(aug@), x, m as nat) implies aug_solves(
                orig,
                x,
                m as nat,
            ) by {
                assert forall|r: int| 0 <= r < n implies #[trigger] fmod(dot(rows_of(before_swap)[r], x, m as nat))
                    == fmod(rows_of(before_swap)[r][m as int].val() as int) by {
                    if r == pivot_row {
                        assert(rows_of(aug@)[pivot as int] == rows_of(before_swap)[r]);
                    } else if r == pivot {
                        assert(rows_of(aug@)[pivot_row as int] == rows_of(before_swap)[r]);
                    } else {
                        assert(rows_of(aug@)[r] == rows_of(before_swap)[r]);
                    }
                }
                assert(aug_solves(rows_of(before_swap), x, m as nat));
            }
            assert forall|x: Seq<Fp>| #[trigger] aug_solves(orig, x, m as nat) implies aug_solves(
                rows_of(aug@),
                x,
                m as nat,
            ) by {
                assert(aug_solves(rows_of(before_swap), x, m as nat));
                assert forall|r: int| 0 <= r < n implies #[trigger] fmod(dot(rows_of(aug@)[r], x, m as nat))
                    == fmod(rows_of(aug@)[r][m as int].val() as int) by {
                    if r == pivot_row {
                        assert(rows_of(aug@)[r] == rows_of(before_swap)[pivot as int]);
                    } else if r == pivot {
                        assert(rows_of(aug@)[r] == rows_of(before_swap)[pivot_row as int]);
                    } else {
                        assert(rows_of(aug@)[r] == rows_of(before_swap)[r]);
                    }
                }
            }
        }
        // Normalise the pivot row.
        let pivot_val = aug[pivot_row][col];
        proof {
            assert(pivot_val.val() != 0);
        }
        let pivot_inv = match pivot_val.inverse() {
            Some(y) => y,
            None => {
                return None;
            },
        };
        let check = pivot_val * pivot_inv;
        proof {
            lemma_from_val((pivot_val.val() * pivot_inv.val()) % (MODULUS as nat));
            lemma_val_eq(check, one);
        }
        if !(check == one) {
            return None;
        }
        proof {
            lemma_from_val((pivot_val.val() * pivot_inv.val()) % (MODULUS as nat));
            lemma_val_eq(check, one);
        }
        let ghost before_scale = aug@;
        let mut scaled: Vec<Fp> = Vec::new();
        let mut c: usize = 0;
        while c <= m
            invariant
                c <= m + 1,
                m < usize::MAX,
                pivot_row < n,
                n == aug@.len(),
                aug@ == before_scale,
                aug@[pivot_row as int]@.len() == m + 1,
                scaled@.len() == c,
                forall|cc: int| 0 <= cc < c ==> (#[trigger] scaled@[cc]).val() == fmod(
                    (aug@[pivot_row as int]@[cc].val() * pivot_inv.val()) as int,
                ),
            decreases m + 1 - c,
        {
            let v = aug[pivot_row][c] * pivot_inv;
            proof {
                lemma_from_val((aug@[pivot_row as int]@[c as int].val() * pivot_inv.val()) % (MODULUS as nat));
            }
            scaled.push(v);
            c = c + 1;
        }
        aug.set(pivot_row, scaled);
        let ghost prow = aug@[pivot_row as int]@;
        proof {
            let m_ = MODULUS as int;
            assert(fmod((pivot_val.val() * pivot_inv.val()) as int) == 1);
            assert(prow[col as int].val() == 1);
            assert forall|r: int| 0 <= r < pivot_row implies (#[trigger] prow[pcols[r] as int]).val() == 0 by {
                assert(before_scale[pivot_row as int]@[pcols[r] as int].val() == 0);
            }
            assert forall|c: int| 0 <= c < col implies (#[trigger] prow[c]).val() == 0 by {
                assert(before_scale[pivot_row as int]@[c].val() == 0);
            }
            assert forall|x: Seq<Fp>| #[trigger] aug_solves(rows_of(aug@), x, m as nat) implies aug_solves(
                orig,
                x,
                m as nat,
            ) by {
                assert forall|r: int| 0 <= r < n implies #[trigger] fmod(dot(rows_of(before_scale)[r], x, m as nat))
                    == fmod(rows_of(before_scale)[r][m as int].val() as int) by {
                    if r == pivot_row {
                        let old = rows_of(before_scale)[r];
                        let new = rows_of(aug@)[r];
                        let s = pivot_inv.val() as int;
                        let pv = pivot_val.val() as int;
                        lemma_dot_scale(old, new, x, m as nat, s);
                        assert(fmod(dot(new, x, m as nat)) == fmod(new[m as int].val() as int));
                        let dold = dot(old, x, m as nat);
                        let b = old[m as int].val() as int;
                        lemma_mod_twice(b * s, m_);
                        assert(fmod(s * dold) == fmod(b * s));
                        lemma_mod_mul_congr(pv, pv, s * dold, b * s, m_);
                        assert(pv * (s * dold) == (pv * s) * dold) by (nonlinear_arith);
                        assert(pv * (b * s) == (pv * s) * b) by (nonlinear_arith);
                        lemma_mod_mul_congr(pv * s, 1, dold, dold, m_);
                        lemma_mod_mul_congr(pv * s, 1, b, b, m_);
                    } else {
                        assert(rows_of(aug@)[r] == rows_of(before_scale)[r]);
                    }
                }
                assert(aug_solves(rows_of(before_scale), x, m as nat));
            }
            assert forall|x: Seq<Fp>| #[trigger] aug_solves(orig, x, m as nat) implies aug_solves(
                rows_of(aug@),
                x,
                m as nat,
            ) by {
                assert(aug_solves(rows_of(before_scale), x, m as nat));
                assert forall|r: int| 0 <= r < n implies #[trigger] fmod(dot(rows_of(aug@)[r], x, m as nat))
                    == fmod(rows_of(aug@)[r][m as int].val() as int) by {
                    if r == pivot_row {
                        let old = rows_of(before_scale)[r];
                        let new = rows_of(aug@)[r];
                        let s = pivot_inv.val() as int;
                        lemma_dot_scale(old, new, x, m as nat, s);
                        let dold = dot(old, x, m as nat);
                        let b = old[m as int].val() as int;
                        assert(fmod(dold) == fmod(b));
                        lemma_mod_twice(b * s, m_);
                        lemma_mod_mul_congr(s, s, dold, b, m_);
                        assert(s * b == b * s) by (nonlinear_arith);
                        assert(new[m as int].val() == fmod(b * s));
                    } else {
                        assert(rows_of(aug@)[r] == rows_of(before_scale)[r]);
                    }
                }
            }
        }
        // Eliminate this column from every other row.
        let mut r: usize = 0;
        while r < n
            invariant
                n == aug@.len(),
                pivot_row < n,
                pivot_row <= col,
                col < m,
                m < usize::MAX,
                r <= n,
                zero.val() == 0,
                pcols.len() == pivot_row,
                forall|r2: int| 0 <= r2 < pivot_row ==> (#[trigger] pcols[r2]) < col,
                forall|rr: int| 0 <= rr < n ==> (#[trigger] aug@[rr])@.len() == m + 1,
                aug@[pivot_row as int]@ == prow,
                prow[col as int].val() == 1,
                forall|r2: int| 0 <= r2 < pivot_row ==> (#[trigger] prow[pcols[r2] as int]).val() == 0,
                forall|c: int| 0 <= c < col ==> (#[trigger] prow[c]).val() == 0,
                forall|r2: int, rr: int|
                    0 <= r2 < pivot_row && 0 <= rr < n ==> (#[trigger] aug@[rr]@[pcols[r2] as int]).val() == (if rr
                        == r2 {
                        1int
                    } else {
                        0int
                    }),
                forall|rr: int, c: int| pivot_row < rr < n && 0 <= c < col ==> (#[trigger] aug@[rr]@[c]).val() == 0,
                forall|rr: int| 0 <= rr < r && rr != pivot_row ==> (#[trigger] aug@[rr]@[col as int]).val() == 0,
                forall|x: Seq<Fp>| #[trigger] aug_solves(rows_of(aug@), x, m as nat) ==> aug_solves(orig, x, m as nat),
                forall|x: Seq<Fp>| #[trigger] aug_solves(orig, x, m as nat) ==> aug_solves(rows_of(aug@), x, m as nat),
            decreases n - r,
        {
            if r != pivot_row {
                let factor = aug[r][col];
                if !(factor == zero) {
                    let ghost before_elim = aug@;
                    let mut newrow: Vec<Fp> = Vec::new();
                    let mut c: usize = 0;
                    while c <= m
                        invariant
                            c <= m + 1,
                            m < usize::MAX,
                            r < n,
                            pivot_row < n,
                            n == aug@.len(),
                            aug@ == before_elim,
                            aug@[r as int]@.len() == m + 1,
                            aug@[pivot_row as int]@.len() == m + 1,
                            newrow@.len() == c,
                            forall|cc: int| 0 <= cc < c ==> (#[trigger] newrow@[cc]).val() == fmod(
                                aug@[r as int]@[cc].val() - factor.val() * aug@[pivot_row as int]@[cc].val(),
                            ),
                        decreases m + 1 - c,
                    {
                        let prod = factor * aug[pivot_row][c];
                        let v = aug[r][c] - prod;
                        proof {
                            let m_ = MODULUS as int;
                            let a = aug@[r as int]@[c as int].val() as int;
                            let fp = factor.val() * aug@[pivot_row as int]@[c as int].val();
                            lemma_from_val((fp % (MODULUS as nat)) as nat);
                            lemma_from_val(((a - prod.val()) % m_) as nat);
                            lemma_mod_twice(fp as int, m_);
                            lemma_mod_sub_congr(a, a, prod.val() as int, fp as int, m_);
                        }
                        newrow.push(v);
                        c = c + 1;
                    }
                    let ghost nr = newrow@;
                    aug.set(r, newrow);
                    proof {
                        let m_ = MODULUS as int;
                        let f = factor.val() as int;
                        assert(aug@[r as int]@ == nr);
                        assert(aug@[r as int]@[col as int].val() == fmod(f - f * 1));
                        assert forall|r2: int, rr: int|
                            0 <= r2 < pivot_row && 0 <= rr < n implies (#[trigger] aug@[rr]@[pcols[r2] as int]).val()
                            == (if rr == r2 {
                            1int
                        } else {
                            0int
                        }) by {
                            let pc = pcols[r2] as int;
                            if rr == r {
                                assert(prow[pc].val() == 0);
                                assert(before_elim[rr]@[pc].val() == (if rr == r2 { 1int } else { 0int }));
                                assert(f * 0 == 0);
                                lemma_small_mod(1, MODULUS as nat);
                                lemma_small_mod(0, MODULUS as nat);
                                assert(nr[pc].val() == fmod(before_elim[rr]@[pc].val() - f * prow[pc].val()));
                            } else {
                                assert(aug@[rr] == before_elim[rr]);
                                assert(before_elim[rr]@[pc].val() == (if rr == r2 { 1int } else { 0int }));
                            }
                        }
                        assert forall|rr: int, c: int| pivot_row < rr < n && 0 <= c < col implies (#[trigger] aug@[rr]@[c]).val()
                            == 0 by {
                            if rr == r {
                                assert(prow[c].val() == 0);
                                assert(before_elim[rr]@[c].val() == 0);
                                assert(f * 0 == 0);
                            }
                        }
                        assert forall|x: Seq<Fp>| #[trigger] aug_solves(rows_of(aug@), x, m as nat) implies aug_solves(
                            orig,
                            x,
                            m as nat,
                        ) by {
                            assert forall|rr: int| 0 <= rr < n implies #[trigger] fmod(
                                dot(rows_of(before_elim)[rr], x, m as nat),
                            ) == fmod(rows_of(before_elim)[rr][m as int].val() as int) by {
                                if rr == r {
                                    let old = rows_of(before_elim)[rr];
                                    let new = rows_of(aug@)[rr];
                                    lemma_dot_elim(old, prow, new, x, m as nat, f);
                                    assert(rows_of(aug@)[pivot_row as int] == prow);
                                    assert(fmod(dot(prow, x, m as nat)) == fmod(prow[m as int].val() as int));
                                    assert(fmod(dot(new, x, m as nat)) == fmod(new[m as int].val() as int));
                                    let dold = dot(old, x, m as nat);
                                    let dp = dot(prow, x, m as nat);
                                    let b = old[m as int].val() as int;
                                    let bp = prow[m as int].val() as int;
                                    lemma_mod_twice(b - f * bp, m_);
                                    lemma_mod_mul_congr(f, f, dp, bp, m_);
                                    lemma_mod_sub_congr(dold, dold, f * dp, f * bp, m_);
                                    lemma_mod_add_congr(dold - f * dp, b - f * bp, f * dp, f * bp, m_);
                                } else {
                                    assert(rows_of(aug@)[rr] == rows_of(before_elim)[rr]);
                                }
                            }
                            assert(aug_solves(rows_of(before_elim), x, m as nat));
                        }
                        assert forall|x: Seq<Fp>| #[trigger] aug_solves(orig, x, m as nat) implies aug_solves(
                            rows_of(aug@),
                            x,
                            m as nat,
                        ) by {
                            assert(aug_solves(rows_of(before_elim), x, m as nat));
                            assert forall|rr: int| 0 <= rr < n implies #[trigger] fmod(dot(rows_of(aug@)[rr], x, m as nat))
                                == fmod(rows_of(aug@)[rr][m as int].val() as int) by {
                                if rr == r {
                                    let old = rows_of(before_elim)[rr];
                                    let new = rows_of(aug@)[rr];
                                    lemma_dot_elim(old, prow, new, x, m as nat, f);
                                    assert(rows_of(before_elim)[pivot_row as int] == prow);
                                    let dold = dot(old, x, m as nat);
                                    let dp = dot(prow, x, m as nat);
                                    let b = old[m as int].val() as int;
                                    let bp = prow[m as int].val() as int;
                                    assert(fmod(dold) == fmod(b));
                                    assert(fmod(dp) == fmod(bp));
                                    lemma_mod_twice(b - f * bp, m_);
                                    lemma_mod_mul_congr(f, f, dp, bp, m_);
                                    lemma_mod_sub_congr(dold, b, f * dp, f * bp, m_);
                                } else {
                                    assert(rows_of(aug@)[rr] == rows_of(before_elim)[rr]);
                                }
                            }
                        }
                    }
                } else {
                    proof {
                        lemma_val_eq(factor, zero);
                    }
                }
            }
            r = r + 1;
        }
        proof {
            pcols = pcols.push(col as nat);
            assert forall|r2: int, rr: int|
                0 <= r2 < pivot_row + 1 && 0 <= rr < n implies (#[trigger] aug@[rr]@[pcols[r2] as int]).val() == (if rr
                == r2 {
                1int
            } else {
                0int
            }) by {
                if r2 < pivot_row {
                    assert(pcols[r2] == pcols.drop_last()[r2]);
                }
            }
        }
        pivot_col_for_row.set(pivot_row, Some(col));
        pivot_row = pivot_row + 1;
        col = col + 1;
    }
    // Any all-zero row with a non-zero right-hand side is inconsistent.
    let mut r: usize = 0;
    while r < n
        invariant
            n == aug@.len(),
            r <= n,
            zero.val() == 0,
            forall|rr: int| 0 <= rr < n ==> (#[trigger] aug@[rr])@.len() == m + 1,
            forall|rr: int| 0 <= rr < r ==> (forall|c: int| 0 <= c < m ==> (#[trigger] aug@[rr]@[c]).val() == 0)
                ==> (#[trigger] aug@[rr]@[m as int]).val() == 0,
            forall|x: Seq<Fp>| #[trigger] aug_solves(orig, x, m as nat) ==> aug_solves(rows_of(aug@), x, m as nat),
            n == matrix@.len(),
            n == rhs@.len(),
            m == matrix@[0]@.len(),
            orig == Seq::new(n as nat, |i: int| matrix@[i]@.push(rhs@[i])),
            rectangular(rows_of(matrix@), m as nat),
        decreases n - r,
    {
        let mut all_zero = true;
        let mut c: usize = 0;
        while c < m
            invariant
                c <= m,
                r < n,
                n == aug@.len(),
                zero.val() == 0,
                aug@[r as int]@.len() == m + 1,
                all_zero == (forall|cc: int| 0 <= cc < c ==> (#[trigger] aug@[r as int]@[cc]).val() == 0),
            decreases m - c,
        {
            if !(aug[r][c] == zero) {
                proof {
                    lemma_val_eq(aug@[r as int]@[c as int], zero);
                }
                all_zero = false;
            } else {
                proof {
                    lemma_val_eq(aug@[r as int]@[c as int], zero);
                }
            }
            c = c + 1;
        }
        if all_zero && !(aug[r][m] == zero) {
            let b = aug[r][m];
            proof {
                use_type_invariant(&b);
                crate::field::lemma_canonical(b);
                lemma_val_eq(b, zero);
                lemma_small_mod(b.val(), MODULUS as nat);
                assert forall|x: Seq<Fp>| x.len() == m implies !#[trigger] solves(rows_of(matrix@), rhs@, x) by {
                    if solves(rows_of(matrix@), rhs@, x) {
                        assert forall|rr: int| 0 <= rr < n implies #[trigger] fmod(dot(orig[rr], x, m as nat))
                            == fmod(orig[rr][m as int].val() as int) by {
                            assert(rows_of(matrix@)[rr] == matrix@[rr]@);
                            assert(fmod(dot(rows_of(matrix@)[rr], x, x.len())) == fmod(rhs@[rr].val() as int));
                            lemma_dot_prefix(orig[rr], rows_of(matrix@)[rr], x, m as nat);
                        }
                        assert(aug_solves(orig, x, m as nat));
                        let row = rows_of(aug@)[r as int];
                        assert(row == aug@[r as int]@);
                        assert forall|c: int| 0 <= c < m && c != -1 implies (#[trigger] row[c]).val() * x[c].val() == 0 by {
                            assert(aug@[r as int]@[c].val() == 0);
                        }
                        lemma_dot_single(row, x, m as nat, -1, 0);
                        assert(fmod(dot(row, x, m as nat)) == fmod(row[m as int].val() as int));
                        lemma_small_mod(0, MODULUS as nat);
                    }
                }
            }
            return None;
        }
        proof {
            if all_zero {
                lemma_val_eq(aug@[r as int]@[m as int], zero);
            }
        }
        r = r + 1;
    }
    // Read off the solution.
    let mut solution: Vec<Fp> = Vec::new();
    let mut c: usize = 0;
    while c < m
        invariant
            c <= m,
            zero.val() == 0,
            solution@.len() == c,
            forall|cc: int| 0 <= cc < c ==> (#[trigger] solution@[cc]).val() == 0,
        decreases m - c,
    {
        solution.push(zero);
        c = c + 1;
    }
    let mut r: usize = 0;
    while r < n
        invariant
            r <= n,
            n == aug@.len(),
            solution@.len() == m,
            pivot_col_for_row@.len() == n,
            pcols.len() == pivot_row,
            pivot_row <= n,
            forall|rr: int| 0 <= rr < n ==> (#[trigger] aug@[rr])@.len() == m + 1,
            forall|rr: int| 0 <= rr < n ==> (#[trigger] pivot_col_for_row@[rr]) == (if rr < pivot_row {
                Some(pcols[rr] as usize)
            } else {
                None
            }),
            forall|rr: int| 0 <= rr < pivot_row ==> (#[trigger] pcols[rr]) < m,
            forall|r1: int, r2: int| 0 <= r1 < r2 < pivot_row ==> pcols[r1] < pcols[r2],
            forall|rr: int| 0 <= rr < r && rr < pivot_row ==> (#[trigger] solution@[pcols[rr] as int]) == aug@[rr]@[m as int],
            forall|cc: int|
                0 <= cc < m && (forall|rr: int| 0 <= rr < r && rr < pivot_row ==> #[trigger] pcols[rr] != cc)
                    ==> (#[trigger] solution@[cc]).val() == 0,
        decreases n - r,
    {
        match pivot_col_for_row[r] {
            Some(pc) => {
                solution.set(pc, aug[r][m]);
            },
            None => {},
        }
        r = r + 1;
    }
    proof {
        let x = solution@;
        assert forall|rr: int| 0 <= rr < n implies #[trigger] fmod(dot(rows_of(aug@)[rr], x, m as nat))
            == fmod(rows_of(aug@)[rr][m as int].val() as int) by {
            let row = rows_of(aug@)[rr];
            if rr < pivot_row {
                let pc = pcols[rr] as int;
                assert forall|c: int| 0 <= c < m && c != pc implies (#[trigger] row[c]).val() * x[c].val() == 0 by {
                    if exists|r2: int| 0 <= r2 < pivot_row && pcols[r2] == c {
                        let r2 = choose|r2: int| 0 <= r2 < pivot_row && pcols[r2] == c;
                        assert(r2 != rr);
                        assert(aug@[rr]@[pcols[r2] as int].val() == 0);
                    } else {
                        assert(x[c].val() == 0);
                    }
                }
                assert(row[pc].val() == 1);
                lemma_dot_single(row, x, m as nat, pc, row[m as int].val() as int);
            } else {
                assert forall|c: int| 0 <= c < m && c != -1 implies (#[trigger] row[c]).val() * x[c].val() == 0 by {
                    assert(aug@[rr]@[c].val() == 0);
                }
                lemma_dot_single(row, x, m as nat, -1, 0);
                assert(aug@[rr]@[m as int].val() == 0);
            }
        }
        assert(aug_solves(rows_of(aug@), x, m as nat));
        assert(aug_solves(orig, x, m as nat));
        assert forall|rr: int| 0 <= rr < n implies #[trigger] fmod(dot(rows_of(matrix@)[rr], x, x.len()))
            == fmod(rhs@[rr].val() as int) by {
            assert(fmod(dot(orig[rr], x, m as nat)) == fmod(orig[rr][m as int].val() as int));
            lemma_dot_prefix(orig[rr], rows_of(matrix@)[rr], x, m as nat);
        }
    }
    Some(solution)
}

/// `p` agrees with the received word wherever the error locator `E`
/// (monic, of degree `e`) does not vanish: `p(x_i) E(x_i) = y_i E(x_i)` on
/// every domain point.
pub open spec fn bw_agrees(p: Seq<Fp>, received: Seq<Fp>, domain: EvaluationDomain, e: nat) -> bool {
    exists|err: Seq<Fp>|
        err.len() == e + 1 && err[e as int].val() == 1 && forall|i: int|
            0 <= i < received.len() ==> #[trigger] fmod(poly_eval(p, domain.point(i)) * poly_eval(err, domain.point(i)))
                == fmod(received[i].val() * poly_eval(err, domain.point(i)))
}

/// A row whose first `j` entries are the powers `x^c` has dot product `sol(x)` over those entries.
proof fn lemma_dot_powers(row: Seq<Fp>, sol: Seq<Fp>, x: int, j: nat)
    requires
        j <= sol.len(),
        forall|c: int| 0 <= c < j ==> (#[trigger] row[c]).val() == fmod(pow(x, c as nat)),
    ensures
        fmod(dot(row, sol, j)) == fmod(poly_eval(sol.subrange(0, j as int), x)),
    decreases j,
{
    let m = MODULUS as int;
    if j == 0 {
        assert(sol.subrange(0, 0) =~= Seq::<Fp>::empty());
    } else {
        let k = (j - 1) as nat;
        lemma_dot_powers(row, sol, x, k);
        let s = sol.subrange(0, j as int);
        assert(s.drop_last() =~= sol.subrange(0, k as int));
        lemma_poly_eval_drop_last(s, x);
        let pk = pow(x, k);
        let sv = sol[k as int].val() as int;
        let rv = row[k as int].val() as int;
        lemma_mod_twice(pk, m);
        lemma_mod_mul_congr(rv, pk, sv, sv, m);
        assert(rv * sv == sv * rv) by (nonlinear_arith);
        assert(pk * sv == sv * pk) by (nonlinear_arith);
        lemma_mod_add_congr(dot(row, sol, k), poly_eval(sol.subrange(0, k as int), x), rv * sv, sv * pk, m);
    }
}

/// Entries `-y x^c` after position `base` contribute `-y * tail(x)` to the dot product.
proof fn lemma_dot_tail(row: Seq<Fp>, sol: Seq<Fp>, x: int, y: int, base: nat, k: nat)
    requires
        base + k <= sol.len(),
        forall|c: int| 0 <= c < k ==> (#[trigger] row[base + c]).val() == fmod(0 - y * fmod(pow(x, c as nat))),
    ensures
        fmod(dot(row, sol, base + k) - dot(row, sol, base)) == fmod(
            0 - y * poly_eval(sol.subrange(base as int, (base + k) as int), x),
        ),
    decreases k,
{
    let m = MODULUS as int;
    if k == 0 {
        assert(sol.subrange(base as int, base as int) =~= Seq::<Fp>::empty());
    } else {
        let k1 = (k - 1) as nat;
        lemma_dot_tail(row, sol, x, y, base, k1);
        let s = sol.subrange(base as int, (base + k) as int);
        assert(s.drop_last() =~= sol.subrange(base as int, (base + k1) as int));
        lemma_poly_eval_drop_last(s, x);
        let pk = pow(x, k1);
        let sv = sol[(base + k1) as int].val() as int;
        let rv = row[(base + k1) as int].val() as int;
        let prev = dot(row, sol, base + k1) - dot(row, sol, base);
        let tail = poly_eval(sol.subrange(base as int, (base + k1) as int), x);
        assert(dot(row, sol, base + k) == dot(row, sol, base + k1) + rv * sv);
        lemma_mod_twice(pk, m);
        lemma_mod_mul_congr(y, y, fmod(pk), pk, m);
        lemma_mod_sub_congr(0, 0, y * fmod(pk), y * pk, m);
        lemma_mod_twice(0 - y * fmod(pk), m);
        lemma_mod_mul_congr(rv, 0 - y * pk, sv, sv, m);
        lemma_mod_add_congr(prev, 0 - y * tail, rv * sv, (0 - y * pk) * sv, m);
        assert(0 - y * tail + (0 - y * pk) * sv == 0 - y * (tail + sv * pk)) by (nonlinear_arith);
    }
}

/// Row `i` of the Berlekamp-Welch system at the point `x` with received
/// value `y`: the powers `x^c` for the `d + e` coefficients of `Q`, the
/// entries `-y x^c` for the `e` lower coefficients of `E`, and the
/// right-hand side `y x^e` from the leading coefficient of `E`.
pub open spec fn bw_row(row: Seq<Fp>, rv: Fp, x: int, y: int, d: nat, e: nat) -> bool {
    &&& row.len() == d + 2 * e
    &&& forall|c: int| 0 <= c < d + e ==> (#[trigger] row[c]).val() == fmod(pow(x, c as nat))
    &&& forall|c: int| 0 <= c < e ==> (#[trigger] row[d + e + c]).val() == fmod(0 - y * fmod(pow(x, c as nat)))
    &&& rv.val() == fmod(y * fmod(pow(x, e)))
}

/// A vector solves a Berlekamp-Welch row exactly when its `Q` part and
/// monic `E` satisfy the key equation `Q(x) = y E(x)` at that point.
pub proof fn lemma_bw_row(row: Seq<Fp>, rv: Fp, x: int, y: int, d: nat, e: nat, sol: Seq<Fp>, err: Seq<Fp>)
    requires
        bw_row(row, rv, x, y, d, e),
        sol.len() == d + 2 * e,
        err.len() == e + 1,
        err.drop_last() == sol.subrange((d + e) as int, (d + 2 * e) as int),
        err.last().val() == 1,
    ensures
        (fmod(dot(row, sol, sol.len())) == fmod(rv.val() as int)) == (fmod(
            poly_eval(sol.subrange(0, (d + e) as int), x),
        ) == fmod(y * poly_eval(err, x))),
{
    let mm = MODULUS as int;
    let de = (d + e) as nat;
    lemma_dot_powers(row, sol, x, de);
    assert forall|c: int| 0 <= c < e implies (#[trigger] row[de + c]).val() == fmod(0 - y * fmod(pow(x, c as nat))) by {
        assert(row[d + e + c] == row[de + c]);
    }
    lemma_dot_tail(row, sol, x, y, de, e);
    assert((de + e) as nat == sol.len());
    let qv = poly_eval(sol.subrange(0, de as int), x);
    let ev = poly_eval(sol.subrange(de as int, (de + e) as int), x);
    let dq = dot(row, sol, de);
    let dall = dot(row, sol, sol.len());
    let pe = pow(x, e);
    lemma_mod_add_congr(dq, qv, dall - dq, 0 - y * ev, mm);
    assert(fmod(dall) == fmod(qv - y * ev));
    lemma_mod_twice(pe, mm);
    lemma_mod_mul_congr(y, y, fmod(pe), pe, mm);
    lemma_mod_twice(y * fmod(pe), mm);
    assert(fmod(rv.val() as int) == fmod(y * pe));
    lemma_poly_eval_drop_last(err, x);
    let ee = poly_eval(err, x);
    assert(ee == ev + 1 * pe);
    assert(y * pe + y * ev == y * ee) by (nonlinear_arith)
        requires
            ee == ev + 1 * pe,
    ;
    if fmod(dall) == fmod(rv.val() as int) {
        lemma_mod_add_congr(qv - y * ev, y * pe, y * ev, y * ev, mm);
        assert(qv - y * ev + y * ev == qv);
    }
    if fmod(qv) == fmod(y * ee) {
        lemma_mod_sub_congr(qv, y * ee, y * ev, y * ev, mm);
        assert(y * ee - y * ev == y * pe);
    }
}

/// Zero coefficients on top do not change a polynomial's value.
pub proof fn lemma_eval_zero_pad(s: Seq<Fp>, k: nat, x: int)
    ensures
        poly_eval(s + Seq::new(k, |i: int| Fp::from_val(0)), x) == poly_eval(s, x),
    decreases k,
{
    if k > 0 {
        let t = s + Seq::new(k, |i: int| Fp::from_val(0));
        assert(t.drop_last() =~= s + Seq::new((k - 1) as nat, |i: int| Fp::from_val(0)));
        lemma_eval_zero_pad(s, (k - 1) as nat, x);
        lemma_poly_eval_drop_last(t, x);
        lemma_from_val(0);
        assert(t.last().val() == 0);
    }
}

/// If some polynomial with at most `d` coefficients is within distance `e`
/// of the received word, with `d + 2 e <= |L|`, the Berlekamp-Welch system
/// has a solution: `Q = p E` (padded to `d + e` coefficients) with the
/// error locator `E` of `p`.
pub proof fn lemma_bw_system_solvable(
    rows: Seq<Seq<Fp>>,
    rhs: Seq<Fp>,
    received: Seq<Fp>,
    domain: EvaluationDomain,
    d: nat,
    e: nat,
    p: Seq<Fp>,
) -> (sol: Seq<Fp>)
    requires
        domain.wf(),
        received.len() == domain.spec_size(),
        rows.len() == received.len(),
        rhs.len() == received.len(),
        d + 2 * e <= domain.spec_size(),
        forall|i: int| 0 <= i < received.len() ==> #[trigger] bw_row(rows[i], rhs[i], domain.point(i), received[i].val() as int, d, e),
        canonical_coeffs(received),
        close_codeword(p, received, domain, d, e),
    ensures
        sol.len() == d + 2 * e,
        solves(rows, rhs, sol),
{
    let mm = MODULUS as int;
    let err = error_locator(p, received, domain, e);
    lemma_error_locator(p, received, domain, e);
    let qs = mul_seq(p, err);
    assert(qs.len() <= d + e);
    let qpad = qs + Seq::new((d + e - qs.len()) as nat, |i: int| Fp::from_val(0));
    let sol = qpad + err.drop_last();
    assert(sol.subrange(0, (d + e) as int) =~= qpad);
    assert(err.drop_last() =~= sol.subrange((d + e) as int, (d + 2 * e) as int));
    assert forall|r: int| 0 <= r < rows.len() implies #[trigger] fmod(dot(rows[r], sol, sol.len())) == fmod(
        rhs[r].val() as int,
    ) by {
        let x = domain.point(r);
        let y = received[r].val() as int;
        assert(bw_row(rows[r], rhs[r], x, y, d, e));
        lemma_bw_row(rows[r], rhs[r], x, y, d, e, sol, err);
        lemma_eval_zero_pad(qs, (d + e - qs.len()) as nat, x);
        lemma_eval_mul(p, err, x);
        lemma_poly_eval_strip(qs, x);
        let px = poly_eval(p, x);
        let ex = poly_eval(err, x);
        if disagreements(p, received, domain).contains(r) {
            assert(fmod(ex) == 0);
            lemma_mod_mul_congr(px, px, ex, 0, mm);
            lemma_mod_mul_congr(y, y, ex, 0, mm);
            assert(px * 0 == 0 && y * 0 == 0);
        } else {
            assert(fmod(px) == y);
            lemma_mod_twice(px, mm);
            lemma_mod_mul_congr(px, y, ex, ex, mm);
        }
        assert(fmod(poly_eval(qpad, x)) == fmod(y * ex));
    }
    sol
}

/// `(a mod p) * x mod p` is the next power's residue.
pub proof fn lemma_pow_step_mod(x: int, c: nat, a: int)
    requires
        a == fmod(pow(x, c)),
    ensures
        fmod(a * fmod(x)) == fmod(pow(x, c + 1)),
{
    let m = MODULUS as int;
    reveal(pow);
    assert(pow(x, c + 1) == x * pow(x, c));
    lemma_mul_mod_noop_general(pow(x, c), x, m);
    assert(pow(x, c) * x == x * pow(x, c)) by (nonlinear_arith);
}

/// A domain has fewer than `usize::MAX` points.
proof fn lemma_domain_size_below_max(d: EvaluationDomain)
    requires
        d.wf(),
    ensures
        d.spec_size() < usize::MAX,
{
    crate::domain::lemma_domain_wf(d);
    let k = d.spec_log_size();
    vstd::arithmetic::power2::lemma2_to64();
    vstd::arithmetic::power2::lemma2_to64_rest();
    if k < 31 {
        vstd::arithmetic::power2::lemma_pow2_strictly_increases(k, 31);
    }
    assert(usize::BITS == 32 || usize::BITS == 64);
}

/// Unique decoding up to `e = (n - d) / 2` errors with Berlekamp-Welch.
/// Succeeds exactly when some polynomial with at most `degree_bound`
/// coefficients is within distance `e` of the received word, and then
/// returns such a polynomial (the only one, by unique decoding); it agrees
/// with the received word outside the zeros of a monic error locator of
/// degree `e`.
pub fn decode_berlekamp_welch(
    received: &[Fp],
    domain: &EvaluationDomain,
    degree_bound: usize,
) -> (r: Result<UnivariatePoly, &'static str>)
    requires
        received@.len() == domain.spec_size(),
        degree_bound <= domain.spec_size(),
    ensures
        r is Ok <==> decodable(
            received@,
            *domain,
            degree_bound as nat,
            ((domain.spec_size() - degree_bound) / 2) as nat,
        ),
        r matches Ok(p) ==> close_codeword(
            p@,
            received@,
            *domain,
            degree_bound as nat,
            ((domain.spec_size() - degree_bound) / 2) as nat,
        ) && is_stripped(p@) && bw_agrees(p@, received@, *domain, ((domain.spec_size() - degree_bound) / 2) as nat),
{
    proof {
        use_type_invariant(domain);
        crate::domain::lemma_domain_wf(*domain);
    }
    coeffs_canonical(received);
    let n = domain.size();
    let e = (n - degree_bound) / 2;
    let d = degree_bound;
    let unknowns = d + 2 * e;
    let ghost mm = MODULUS as int;
    let mut matrix: Vec<Vec<Fp>> = Vec::new();
    let mut rhs: Vec<Fp> = Vec::new();
    let mut i: usize = 0;
    while i < n
        invariant
            i <= n,
            n == domain.spec_size(),
            n == received@.len(),
            unknowns == d + 2 * e,
            unknowns <= n,
            mm == MODULUS as int,
            matrix@.len() == i,
            rhs@.len() == i,
            forall|t: int| 0 <= t < i ==> (#[trigger] matrix@[t])@.len() == unknowns,
            forall|t: int, c: int|
                0 <= t < i && 0 <= c < d + e ==> (#[trigger] matrix@[t]@[c]).val() == fmod(
                    pow(domain.point(t), c as nat),
                ),
            forall|t: int, c: int|
                0 <= t < i && 0 <= c < e ==> (#[trigger] matrix@[t]@[d + e + c]).val() == fmod(
                    0 - received@[t].val() * fmod(pow(domain.point(t), c as nat)),
                ),
            forall|t: int| 0 <= t < i ==> (#[trigger] rhs@[t]).val() == fmod(
                received@[t].val() * fmod(pow(domain.point(t), e as nat)),
            ),
        decreases n - i,
    {
        let xi = domain.element(i);
        let yi = received[i];
        let ghost xv = domain.point(i as int);
        let mut row: Vec<Fp> = Vec::new();
        let mut pw = Fp::one();
        proof {
            reveal(pow);
            lemma_small_mod(1, MODULUS as nat);
            lemma_small_mod(xi.val(), MODULUS as nat);
        }
        let mut j: usize = 0;
        while j < d + e
            invariant
                j <= d + e,
                d + e <= unknowns,
                row@.len() == j,
                xi.val() == xv,
                xv == fmod(xv),
                pw.val() == fmod(pow(xv, j as nat)),
                forall|c: int| 0 <= c < j ==> (#[trigger] row@[c]).val() == fmod(pow(xv, c as nat)),
            decreases d + e - j,
        {
            row.push(pw);
            proof {
                lemma_from_val((pw.val() * xi.val()) % (MODULUS as nat));
                lemma_pow_step_mod(xv, j as nat, pw.val() as int);
            }
            pw = pw * xi;
            j = j + 1;
        }
        let mut pw2 = Fp::one();
        proof {
            reveal(pow);
            lemma_small_mod(1, MODULUS as nat);
        }
        let mut k: usize = 0;
        while k < e
            invariant
                k <= e,
                mm == MODULUS as int,
                row@.len() == d + e + k,
                d + e + e == unknowns,
                xi.val() == xv,
                xv == fmod(xv),
                pw2.val() == fmod(pow(xv, k as nat)),
                forall|c: int| 0 <= c < d + e ==> (#[trigger] row@[c]).val() == fmod(pow(xv, c as nat)),
                forall|c: int| 0 <= c < k ==> (#[trigger] row@[d + e + c]).val() == fmod(
                    0 - yi.val() * fmod(pow(xv, c as nat)),
                ),
            decreases e - k,
        {
            let t1 = yi * pw2;
            let v = Fp::zero() - t1;
            proof {
                lemma_from_val((yi.val() * pw2.val()) % (MODULUS as nat));
                lemma_from_val(((0 - t1.val()) % mm) as nat);
                lemma_mod_twice((yi.val() * pw2.val()) as int, mm);
                lemma_mod_sub_congr(0, 0, t1.val() as int, (yi.val() * pw2.val()) as int, mm);
                lemma_from_val((pw2.val() * xi.val()) % (MODULUS as nat));
                lemma_pow_step_mod(xv, k as nat, pw2.val() as int);
            }
            row.push(v);
            pw2 = pw2 * xi;
            k = k + 1;
        }
        let rhs_val = yi * pw2;
        proof {
            lemma_from_val((yi.val() * pw2.val()) % (MODULUS as nat));
        }
        matrix.push(row);
        rhs.push(rhs_val);
        i = i + 1;
    }
    proof {
        if n > 0 {
            assert forall|t: int| 0 <= t < n implies (#[trigger] rows_of(matrix@)[t]).len() == matrix@[0]@.len() by {}
        }
        lemma_domain_size_below_max(*domain);
        assert forall|t: int| 0 <= t < n implies #[trigger] bw_row(
            rows_of(matrix@)[t],
            rhs@[t],
            domain.point(t),
            received@[t].val() as int,
            d as nat,
            e as nat,
        ) by {
            assert(rows_of(matrix@)[t] == matrix@[t]@);
        }
    }
    let solved = solve_linear_system(matrix.as_slice(), rhs.as_slice());
    let solution = match solved {
        Some(x) => x,
        None => {
            proof {
                if decodable(received@, *domain, d as nat, e as nat) {
                    let p = choose|p: Seq<Fp>| #[trigger] close_codeword(p, received@, *domain, d as nat, e as nat);
                    let sol = lemma_bw_system_solvable(rows_of(matrix@), rhs@, received@, *domain, d as nat, e as nat, p);
                    assert(matrix@[0]@.len() == unknowns);
                    assert(!solves(rows_of(matrix@), rhs@, sol));
                }
            }
            return Err(
                "could not solve BW linear system — input is likely beyond the unique-decoding radius",
            );
        },
    };
    proof {
        if n == 0 {
            assert(unknowns == 0);
        }
    }
    let ghost sol = solution@;
    assert(n > 0 ==> sol.len() == unknowns);
    // Q and E from the solution vector.
    let mut q_coeffs: Vec<Fp> = Vec::new();
    let mut e_coeffs: Vec<Fp> = Vec::new();
    let mut j: usize = 0;
    if n > 0 {
        while j < d + e
            invariant
                j <= d + e,
                sol == solution@,
                sol.len() == unknowns,
                unknowns == d + 2 * e,
                q_coeffs@ == sol.subrange(0, j as int),
            decreases d + e - j,
        {
            q_coeffs.push(solution[j]);
            j = j + 1;
            assert(q_coeffs@ =~= sol.subrange(0, j as int));
        }
        let mut k: usize = 0;
        while k < e
            invariant
                k <= e,
                sol == solution@,
                sol.len() == unknowns,
                unknowns == d + 2 * e,
                e_coeffs@ == sol.subrange((d + e) as int, (d + e + k) as int),
            decreases e - k,
        {
            e_coeffs.push(solution[d + e + k]);
            k = k + 1;
            assert(e_coeffs@ =~= sol.subrange((d + e) as int, (d + e + k) as int));
        }
    }
    let ghost e_low = e_coeffs@;
    let ghost q_seq = q_coeffs@;
    let one = Fp::one();
    e_coeffs.push(one);
    let ghost e_seq = e_coeffs@;
    let q_poly = UnivariatePoly::new(q_coeffs);
    let e_poly = UnivariatePoly::new(e_coeffs);
    proof {
        lemma_strip(e_seq);
        assert(e_seq.last().val() == 1);
        assert(e_poly@ == e_seq);
        lemma_strip(q_seq);
    }
    let (quotient, remainder) = poly_divmod(&q_poly, &e_poly);
    coeffs_canonical(quotient.coeffs());
    coeffs_canonical(remainder.coeffs());
    coeffs_canonical(e_poly.coeffs());
    proof {
        // The key equation `Q(x_i) = y_i E(x_i)` holds at every point.
        assert forall|i: int| 0 <= i < received@.len() implies #[trigger] fmod(poly_eval(q_seq, domain.point(i)))
            == fmod(received@[i].val() * poly_eval(e_seq, domain.point(i))) by {
            let row = rows_of(matrix@)[i];
            assert(bw_row(row, rhs@[i], domain.point(i), received@[i].val() as int, d as nat, e as nat));
            assert(fmod(dot(row, sol, sol.len())) == fmod(rhs@[i].val() as int));
            assert(e_seq.drop_last() =~= sol.subrange((d + e) as int, (d + 2 * e) as int));
            assert(sol.subrange(0, (d + e) as int) =~= q_seq);
            lemma_bw_row(row, rhs@[i], domain.point(i), received@[i].val() as int, d as nat, e as nat, sol, e_seq);
        }
        // The leading coefficient `1` of `E` is invertible.
        vstd::arithmetic::power::lemma1_pow((MODULUS - 2) as nat);
        lemma_small_mod(1, MODULUS as nat);
        assert(is_unit(e_poly@.last()));
        assert(remainder@.len() < e_seq.len());
    }
    if !remainder.is_zero() {
        proof {
            if decodable(received@, *domain, d as nat, e as nat) {
                let p = choose|p: Seq<Fp>| #[trigger] close_codeword(p, received@, *domain, d as nat, e as nat);
                lemma_key_equation_factors(q_seq, e_seq, p, received@, *domain, d as nat, e as nat);
                assert forall|x: int| #[trigger] fmod(poly_eval(remainder@, x)) == fmod(
                    poly_eval(p, x) * poly_eval(e_seq, x) - poly_eval(quotient@, x) * poly_eval(e_seq, x),
                ) by {
                    lemma_poly_eval_strip(q_seq, x);
                    let a = poly_eval(p, x) * poly_eval(e_seq, x);
                    let b = poly_eval(quotient@, x) * poly_eval(e_seq, x);
                    let rr = poly_eval(remainder@, x);
                    assert(fmod(poly_eval(q_poly@, x)) == fmod(b + rr));
                    assert(fmod(poly_eval(q_seq, x)) == fmod(a));
                    lemma_mod_sub_congr(a, b + rr, b, b, mm);
                    assert(b + rr - b == rr);
                }
                lemma_exact_division(p, quotient@, remainder@, e_seq);
            }
        }
        return Err("Q is not divisible by E — beyond unique-decoding radius");
    }
    proof {
        let p = quotient@;
        // Degree: |P| + |E| <= |Q| + 1 with |E| = e + 1 and |Q| <= d + e.
        assert(p.len() <= d);
        assert(e_seq.len() == e + 1);
        assert(e_seq[e as int].val() == 1);
        assert forall|i: int| 0 <= i < received@.len() implies #[trigger] fmod(
            poly_eval(p, domain.point(i)) * poly_eval(e_seq, domain.point(i)),
        ) == fmod(received@[i].val() * poly_eval(e_seq, domain.point(i))) by {
            let x = domain.point(i);
            // P * E == Q (mod p), the remainder being zero
            lemma_poly_eval_strip(q_seq, x);
            assert(fmod(poly_eval(q_seq, x)) == fmod(poly_eval(p, x) * poly_eval(e_seq, x) + poly_eval(remainder@, x)));
            assert(poly_eval(remainder@, x) == 0);
        }
        assert(bw_agrees(p, received@, *domain, e as nat));
        lemma_bw_agrees_within_radius(p, received@, *domain, e as nat);
        assert(close_codeword(p, received@, *domain, d as nat, e as nat));
        assert(decodable(received@, *domain, d as nat, e as nat));
    }
    Ok(quotient)
}

} // verus!
