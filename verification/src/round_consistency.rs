//! The verifier's virtual oracle agrees with the honest prover: from the
//! codeword values of `f_i` on one fibre of `L_i`, the verifier recomputes
//! the next round's function at `x^k` -- quotient by the OOD constraints,
//! local fold, degree correction -- and gets exactly the value of the
//! polynomial that the honest prover derives from `f_i` by the same three
//! steps.
use crate::degree_correction::{g_r_value, geometric_coeffs};
use crate::domain::{lemma_domain_wf, EvaluationDomain};
use crate::encode::codeword;
use crate::fft::{ifft_values, inv_val};
use crate::field::{fmod, lemma_from_val, lemma_val_eq, Fp, MODULUS};
use crate::fold::{fibre, fold_coeffs, fold_term, fold_value, inv_or_one_val};
use crate::generator::{lemma_inv_val_correct, lemma_pow_nonzero};
use crate::interpolate::lagrange_value;
use crate::polynomial::{mul_seq, poly_eval, strip};
use crate::quotient::{quotient_value, vanishing};
use crate::stir_verifier::{fibre_collides, fibre_next, fibre_quotients, local_fold_term, local_fold_value};
use crate::sums::{lemma_sum_congruent, sum};
use vstd::arithmetic::div_mod::{lemma_mod_bound, lemma_mod_twice, lemma_mul_mod_noop_general, lemma_small_mod};
use vstd::arithmetic::power::{lemma_pow_mod_noop, lemma_pow_multiplies, pow};
use vstd::arithmetic::power2::pow2;
use vstd::prelude::*;

verus! {

/// `(x^l)^(-1) = (x^(-1))^l` modulo `p` for non-zero `x`.
proof fn lemma_inverse_of_power(x: int, l: nat)
    requires
        fmod(x) != 0,
    ensures
        fmod(inv_or_one_val(fmod(pow(x, l)))) == fmod(pow(inv_val(x), l)),
{
    let m = MODULUS as int;
    let e = (MODULUS - 2) as nat;
    let xl = fmod(pow(x, l));
    lemma_pow_nonzero(x, l);
    lemma_mod_twice(pow(x, l), m);
    assert(inv_or_one_val(xl) == inv_val(xl));
    lemma_pow_mod_noop(pow(x, l), e, m);
    lemma_pow_multiplies(x, l, e);
    lemma_pow_mod_noop(pow(x, e), l, m);
    lemma_pow_multiplies(x, e, l);
    assert(l * e == e * l) by (nonlinear_arith);
    lemma_mod_twice(pow(xl, e), m);
}

/// The verifier's local fold of one fibre is the fold value at its base point.
pub proof fn lemma_local_fold_is_fold_value(evals: Seq<Fp>, k: nat, alpha: int, d: EvaluationDomain, j: int, omega: int)
    requires
        k >= 1,
        fmod(d.point(j)) != 0,
        omega == fmod(pow(d.spec_generator().val() as int, (evals.len() / k) as nat)),
    ensures
        local_fold_value(fibre(evals, j, (evals.len() / k) as int, k), alpha, d.point(j), omega) == fold_value(
            evals,
            k,
            alpha,
            d,
            j,
        ),
{
    let m = MODULUS as int;
    let leaves = fibre(evals, j, (evals.len() / k) as int, k);
    let x0 = d.point(j);
    let t = ifft_values(leaves, omega);
    let f = |l: int| local_fold_term(t, alpha, inv_val(x0), l);
    let g = |l: int| fold_term(t, alpha, x0, l);
    assert forall|l: int| 0 <= l < k implies fmod(#[trigger] f(l)) == fmod(g(l)) by {
        let a = fmod(pow(alpha, l as nat));
        let tl = t[l].val() as int;
        let u = fmod(pow(inv_val(x0), l as nat));
        let v = inv_or_one_val(fmod(pow(x0, l as nat)));
        lemma_inverse_of_power(x0, l as nat);
        // f(l) = a * fmod(tl * u), g(l) = a * tl * v with fmod(v) == u.
        lemma_mul_mod_noop_general(tl, pow(inv_val(x0), l as nat), m);
        lemma_mul_mod_noop_general(a, tl * u, m);
        lemma_mul_mod_noop_general(a, fmod(tl * u), m);
        lemma_mul_mod_noop_general(tl, v, m);
        lemma_mul_mod_noop_general(tl, u, m);
        lemma_mod_twice(tl * u, m);
        assert(fmod(tl * v) == fmod(tl * u));
        lemma_mul_mod_noop_general(a, tl * v, m);
        assert(a * tl * v == a * (tl * v)) by (nonlinear_arith);
    }
    lemma_sum_congruent(f, g, k as int);
}


/// The quotient the verifier computes from an honest answer `f(x)` is the
/// value of any polynomial `q` with `q V_S = f - P_S`.
proof fn lemma_quotient_value_is_quotient(f: Seq<Fp>, q: Seq<Fp>, pts: Seq<(Fp, Fp)>, x: int, fx: int)
    requires
        pts.len() > 0,
        fx == fmod(poly_eval(f, x)),
        vanishing(pts, x, pts.len()) != 0,
        fmod(poly_eval(q, x) * vanishing(pts, x, pts.len())) == fmod(poly_eval(f, x) - lagrange_value(pts, x)),
    ensures
        quotient_value(fx, pts, x) == fmod(poly_eval(q, x)),
{
    let m = MODULUS as int;
    let v = vanishing(pts, x, pts.len());
    let qx = poly_eval(q, x);
    let lx = lagrange_value(pts, x);
    let iv = inv_val(v);
    // `V` is already reduced, and non-zero, so it is inverted by `iv`.
    assert(v == fmod(vanishing(pts, x, (pts.len() - 1) as nat) * fmod(x - pts[pts.len() - 1].0.val())));
    lemma_mod_bound(vanishing(pts, x, (pts.len() - 1) as nat) * fmod(x - pts[pts.len() - 1].0.val()), m);
    lemma_small_mod(v as nat, MODULUS as nat);
    lemma_inv_val_correct(v);
    // fmod(fx - fmod(L)) = fmod(f(x) - L(x)) = fmod(q V).
    crate::arith::lemma_mod_sub_congr(fx, poly_eval(f, x), fmod(lx), lx, m);
    lemma_mod_twice(poly_eval(f, x), m);
    lemma_mod_twice(lx, m);
    let num = fmod(fx - fmod(lx));
    assert(num == fmod(qx * v));
    lemma_mul_mod_noop_general(qx * v, iv, m);
    assert(qx * v * iv == qx * (v * iv)) by (nonlinear_arith);
    lemma_mul_mod_noop_general(qx, v * iv, m);
    assert(qx * 1 == qx);
}

/// On one fibre `j, j + m, ..., j + (k-1) m` of `L`, the verifier's quotient
/// values of honest answers are the codeword of the quotient polynomial.
pub proof fn lemma_fibre_quotients(
    f: Seq<Fp>,
    q: Seq<Fp>,
    d: EvaluationDomain,
    k: nat,
    j: int,
    idxs: Seq<usize>,
    answers: Seq<Fp>,
    pts: Seq<(Fp, Fp)>,
)
    requires
        d.wf(),
        k >= 1,
        d.spec_size() % k == 0,
        0 <= j < d.spec_size() / k,
        idxs.len() == k,
        forall|l: int| 0 <= l < k ==> (#[trigger] idxs[l]) as int == j + l * (d.spec_size() / k),
        answers.len() == k,
        forall|l: int| 0 <= l < k ==> #[trigger] answers[l] == codeword(f, d)[idxs[l] as int],
        pts.len() == 0 ==> q == f,
        pts.len() > 0 ==> forall|x: int| #[trigger] fmod(poly_eval(q, x) * vanishing(pts, x, pts.len())) == fmod(
            poly_eval(f, x) - lagrange_value(pts, x),
        ),
        !fibre_collides(d, idxs, pts),
    ensures
        fibre_quotients(d, idxs, answers, pts) == fibre(codeword(q, d), j, (d.spec_size() / k) as int, k),
{
    let n = d.spec_size();
    let mm = (n / k) as int;
    let lhs = fibre_quotients(d, idxs, answers, pts);
    let rhs = fibre(codeword(q, d), j, mm, k);
    vstd::arithmetic::div_mod::lemma_fundamental_div_mod(n as int, k as int);
    assert forall|l: int| 0 <= l < k implies #[trigger] lhs[l] == rhs[l] by {
        assert(j + l * mm < n) by (nonlinear_arith)
            requires
                0 <= j < mm,
                0 <= l < k,
                n == k * mm,
        ;
        assert(j + l * mm >= 0) by (nonlinear_arith)
            requires
                0 <= j,
                0 <= l,
                mm >= 0,
        ;
        let i = idxs[l] as int;
        let x = d.point(i);
        if pts.len() > 0 {
            let fx = fmod(poly_eval(f, x));
            lemma_mod_bound(poly_eval(f, x), MODULUS as int);
            lemma_from_val(fx as nat);
            assert(answers[l].val() == fx);
            if vanishing(pts, x, pts.len()) == 0 {
                assert(fibre_collides(d, idxs, pts));
            }
            lemma_quotient_value_is_quotient(f, q, pts, x, fx);
        }
    }
    assert(lhs =~= rhs);
}


/// Every point of a domain is a non-zero residue.
proof fn lemma_point_nonzero(d: EvaluationDomain, i: int)
    requires
        d.wf(),
    ensures
        d.point(i) != 0,
        fmod(d.point(i)) == d.point(i),
{
    let m = MODULUS as int;
    lemma_domain_wf(d);
    let c = d.spec_offset().val() as int;
    let w = d.spec_generator().val() as int;
    let e = crate::field::group_order() / pow2(d.spec_log_size());
    lemma_small_mod(7, MODULUS as nat);
    lemma_pow_nonzero(7, e);
    lemma_small_mod(w as nat, MODULUS as nat);
    lemma_small_mod(c as nat, MODULUS as nat);
    lemma_pow_nonzero(w, i as nat);
    if fmod(c * pow(w, i as nat)) == 0 {
        crate::generator::lemma_no_zero_divisors(c, pow(w, i as nat));
    }
    lemma_mod_twice(c * pow(w, i as nat), m);
}

/// The virtual-oracle identity of a STIR round. Let `f` be the round's
/// polynomial and `answers` its codeword on the fibre of `L` over
/// `z = x_j^k`; let the honest prover quotient `f` by the OOD constraints
/// `pts` (giving `q`, or `f` itself with no constraints), fold `q` by `k`
/// with `alpha` (giving `g`), and degree-correct `g` with `r` and `e`
/// (giving `next`). Then the value the verifier computes from the fibre,
/// when no fibre point meets an OOD point, is `next(z)`.
pub proof fn lemma_virtual_oracle(
    f: Seq<Fp>,
    q: Seq<Fp>,
    g: Seq<Fp>,
    next: Seq<Fp>,
    d: EvaluationDomain,
    k: nat,
    a: nat,
    j: int,
    idxs: Seq<usize>,
    answers: Seq<Fp>,
    pts: Seq<(Fp, Fp)>,
    alpha: int,
    r: int,
    e: nat,
    omega: int,
)
    requires
        d.wf(),
        k == pow2(a),
        k >= 2,
        d.spec_size() % k == 0,
        0 <= j < d.spec_size() / k,
        idxs.len() == k,
        forall|l: int| 0 <= l < k ==> (#[trigger] idxs[l]) as int == j + l * (d.spec_size() / k),
        answers.len() == k,
        forall|l: int| 0 <= l < k ==> #[trigger] answers[l] == codeword(f, d)[idxs[l] as int],
        pts.len() == 0 ==> q == f,
        pts.len() > 0 ==> forall|x: int| #[trigger] fmod(poly_eval(q, x) * vanishing(pts, x, pts.len())) == fmod(
            poly_eval(f, x) - lagrange_value(pts, x),
        ),
        !fibre_collides(d, idxs, pts),
        q.len() <= d.spec_size(),
        forall|i: int| 0 <= i < q.len() ==> (#[trigger] q[i]).val() < MODULUS,
        g == strip(fold_coeffs(q, k, alpha)),
        forall|x: int| #[trigger] fmod(poly_eval(next, x)) == fmod(poly_eval(g, x) * g_r_value(r, x, e)),
        omega == fmod(pow(d.spec_generator().val() as int, (d.spec_size() / k) as nat)),
    ensures
        fibre_next(d, idxs, answers, pts, alpha, r, omega, e) == fmod(poly_eval(next, fmod(pow(d.point(j), k)))),
{
    let m = MODULUS as int;
    let n = d.spec_size();
    let evals = codeword(q, d);
    assert(idxs[0] as int == j);
    let x0 = d.point(j);
    let z = fmod(pow(x0, k));
    lemma_fibre_quotients(f, q, d, k, j, idxs, answers, pts);
    lemma_point_nonzero(d, j);
    assert(evals.len() == n);
    lemma_local_fold_is_fold_value(evals, k, alpha, d, j, omega);
    crate::fold_laws::lemma_folding_theorem(q, d, k, a, alpha, j as nat);
    let fc = fold_coeffs(q, k, alpha);
    let lfv = local_fold_value(fibre_quotients(d, idxs, answers, pts), alpha, x0, omega);
    assert(lfv == fmod(poly_eval(fc, z)));
    let gr = g_r_value(r, z, e);
    crate::polynomial::lemma_poly_eval_strip(fc, z);
    lemma_mul_mod_noop_general(poly_eval(fc, z), gr, m);
    assert(fibre_next(d, idxs, answers, pts, alpha, r, omega, e) == fmod(lfv * gr));
}

} // verus!
