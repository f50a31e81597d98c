//! The Folding theorem: folding the evaluation table of `f` on a STIR
//! domain gives the evaluations of the folded polynomial `Fold(f, k, alpha)`
//! at the `k`-th powers of the fibre representatives.
use crate::domain::EvaluationDomain;
use crate::encode::codeword;
use crate::fft::{fft_values, ifft_values, inv_val, is_pow2, is_primitive_root};
use crate::fft_laws::{lemma_fft_round_trip, lemma_generator_power_invertible, lemma_sum_split};
use crate::field::{fmod, lemma_from_val, lemma_val_eq, Fp, MODULUS, MULTIPLICATIVE_GENERATOR};
use crate::fold::{fibre, fold_coeffs, fold_term, fold_value, inv_or_one_val};
use crate::polynomial::{coef, poly_eval};
use crate::sums::{lemma_poly_eval_as_long_sum, lemma_sum_congruent, lemma_sum_ext, lemma_sum_scale, lemma_sum_swap, poly_terms, sum};
use vstd::arithmetic::div_mod::{lemma_add_mod_noop, lemma_mod_twice, lemma_mul_mod_noop_general, lemma_small_mod};
use vstd::arithmetic::power::{lemma_pow_adds, lemma_pow_mod_noop, lemma_pow_multiplies, pow};
use vstd::arithmetic::power2::pow2;
use vstd::prelude::*;

verus! {

/// A sum over `Q * k` terms, taken in `Q` blocks of `k`.
pub proof fn lemma_sum_blocks(g: spec_fn(int) -> int, k: int, q: int)
    requires
        k >= 0,
        q >= 0,
    ensures
        sum(g, q * k) == sum(|b: int| sum(|r: int| g(b * k + r), k), q),
    decreases q,
{
    let blocks = |b: int| sum(|r: int| g(b * k + r), k);
    if q > 0 {
        lemma_sum_blocks(g, k, q - 1);
        assert(q * k == (q - 1) * k + k) by (nonlinear_arith);
        assert((q - 1) * k >= 0) by (nonlinear_arith)
            requires
                q >= 1,
                k >= 0,
        ;
        lemma_sum_split(g, (q - 1) * k, k);
        let tail = |r: int| g(r + (q - 1) * k);
        let blk = |r: int| g((q - 1) * k + r);
        assert forall|r: int| 0 <= r < k implies #[trigger] tail(r) == blk(r) by {
            assert(r + (q - 1) * k == (q - 1) * k + r);
        }
        lemma_sum_ext(tail, blk, k);
        assert(sum(blocks, q) == sum(blocks, q - 1) + blocks(q - 1));
    }
}

/// The `r`-th row polynomial `f_r(Y) = sum_{b < Q} f[b k + r] Y^b` at `y`.
pub open spec fn row_value(f: Seq<Fp>, k: nat, r: int, y: int, q: nat) -> int {
    sum(|b: int| coef(f, b * k + r) * pow(y, b as nat), q as int)
}

/// `f(z) = sum_{r < k} z^r f_r(z^k)` whenever the `Q` rows of `k` cover `f`.
pub proof fn lemma_poly_decompose(f: Seq<Fp>, z: int, k: nat, q: nat)
    requires
        k >= 1,
        q * k >= f.len(),
    ensures
        poly_eval(f, z) == sum(|r: int| pow(z, r as nat) * row_value(f, k, r, pow(z, k), q), k as int),
{
    let g = poly_terms(f, z);
    lemma_poly_eval_as_long_sum(f, z, (q * k) as int);
    lemma_sum_blocks(g, k as int, q as int);
    let cell = |b: int, r: int| g(b * k + r);
    lemma_sum_swap(cell, q as int, k as int);
    let blocks_swapped = |r: int| sum(|b: int| cell(b, r), q as int);
    let target = |r: int| pow(z, r as nat) * row_value(f, k, r, pow(z, k), q);
    assert forall|r: int| 0 <= r < k implies #[trigger] blocks_swapped(r) == target(r) by {
        let zr = pow(z, r as nat);
        let row = |b: int| coef(f, b * k + r) * pow(pow(z, k), b as nat);
        assert forall|b: int| 0 <= b < q implies #[trigger] cell(b, r) == zr * row(b) by {
            assert(b * k + r >= 0) by (nonlinear_arith)
                requires
                    b >= 0,
                    r >= 0,
            ;
            lemma_pow_multiplies(z, k, b as nat);
            assert((k * b) as nat + r as nat == (b * k + r) as nat) by (nonlinear_arith)
                requires
                    b >= 0,
                    r >= 0,
            ;
            lemma_pow_adds(z, (k * b) as nat, r as nat);
            let cf = coef(f, b * k + r);
            let pkb = pow(z, (k * b) as nat);
            assert(cf * (pkb * zr) == zr * (cf * pkb)) by (nonlinear_arith);
        }
        lemma_sum_scale(row, |b: int| cell(b, r), zr, q as int);
    }
    lemma_sum_ext(blocks_swapped, target, k as int);
    let blocks = |b: int| sum(|r: int| g(b * k + r), k as int);
    let blocks2 = |b: int| sum(|r: int| cell(b, r), k as int);
    assert forall|b: int| 0 <= b < q implies #[trigger] blocks(b) == blocks2(b) by {
        lemma_sum_ext(|r: int| g(b * k + r), |r: int| cell(b, r), k as int);
    }
    lemma_sum_ext(blocks, blocks2, q as int);
}

/// Row values only depend on the point modulo `p`.
proof fn lemma_row_congruent(f: Seq<Fp>, k: nat, r: int, y1: int, y2: int, q: nat)
    requires
        fmod(y1) == fmod(y2),
    ensures
        fmod(row_value(f, k, r, y1, q)) == fmod(row_value(f, k, r, y2, q)),
{
    let md = MODULUS as int;
    let t1 = |b: int| coef(f, b * k + r) * pow(y1, b as nat);
    let t2 = |b: int| coef(f, b * k + r) * pow(y2, b as nat);
    assert forall|b: int| 0 <= b < q implies fmod(#[trigger] t1(b)) == fmod(t2(b)) by {
        lemma_pow_mod_noop(y1, b as nat, md);
        lemma_pow_mod_noop(y2, b as nat, md);
        vstd::arithmetic::div_mod::lemma_mod_twice(y1, md);
        lemma_mul_mod_noop_general(coef(f, b * k + r), pow(y1, b as nat), md);
        lemma_mul_mod_noop_general(coef(f, b * k + r), pow(y2, b as nat), md);
    }
    lemma_sum_congruent(t1, t2, q as int);
}

/// The fibre coefficients `b_r = x^r f_r(x^k)` of the fibre over `x`.
pub open spec fn fibre_coeffs(f: Seq<Fp>, k: nat, x: int, q: nat) -> Seq<Fp> {
    Seq::new(k, |r: int| Fp::from_val(fmod(pow(x, r as nat) * row_value(f, k, r, fmod(pow(x, k)), q)) as nat))
}

/// On the fibre `x * w_k^i` (`i < k`) of a primitive `k`-th root `w_k`,
/// `f(x w_k^i) = sum_r b_r (w_k^i)^r`: the fibre values are the transform
/// of the fibre coefficients.
proof fn lemma_fibre_values(f: Seq<Fp>, k: nat, x: int, wk: int, q: nat, i: nat)
    requires
        k >= 2,
        k % 2 == 0,
        is_primitive_root(wk, k),
        q * k >= f.len(),
    ensures
        fmod(poly_eval(f, x * pow(wk, i))) == fmod(poly_eval(fibre_coeffs(f, k, x, q), pow(wk, i))),
{
    let md = MODULUS as int;
    let z = x * pow(wk, i);
    let v = pow(wk, i);
    let y = fmod(pow(x, k));
    let b = fibre_coeffs(f, k, x, q);
    lemma_poly_decompose(f, z, k, q);
    crate::sums::lemma_poly_eval_as_sum(b, v);
    crate::fft::lemma_root_full_power(wk, k);
    // z^k = x^k (w_k^k)^i = x^k modulo p.
    vstd::arithmetic::power::lemma_pow_distributes(x, v, k);
    lemma_pow_multiplies(wk, i, k);
    lemma_pow_multiplies(wk, k, i);
    assert(i * k == k * i) by (nonlinear_arith);
    lemma_pow_mod_noop(pow(wk, k), i, md);
    vstd::arithmetic::power::lemma1_pow(i);
    lemma_small_mod(1, MODULUS as nat);
    lemma_mul_mod_noop_general(pow(x, k), pow(v, k), md);
    assert(fmod(pow(z, k)) == fmod(pow(x, k)));
    vstd::arithmetic::div_mod::lemma_mod_twice(pow(x, k), md);
    let lhs_t = |r: int| pow(z, r as nat) * row_value(f, k, r, pow(z, k), q);
    let rhs_t = poly_terms(b, v);
    assert forall|r: int| 0 <= r < k implies fmod(#[trigger] lhs_t(r)) == fmod(rhs_t(r)) by {
        let rn = r as nat;
        let row_z = row_value(f, k, r, pow(z, k), q);
        let row_y = row_value(f, k, r, y, q);
        lemma_row_congruent(f, k, r, pow(z, k), y, q);
        vstd::arithmetic::power::lemma_pow_distributes(x, v, rn);
        let xr = pow(x, rn);
        let vr = pow(v, rn);
        lemma_from_val(fmod(xr * row_y) as nat);
        assert(coef(b, r) == fmod(xr * row_y));
        lemma_mul_mod_noop_general(xr * vr, row_z, md);
        lemma_mul_mod_noop_general(xr * vr, row_y, md);
        assert(xr * vr * row_y == (xr * row_y) * vr) by (nonlinear_arith);
        lemma_mul_mod_noop_general(xr * row_y, vr, md);
        vstd::arithmetic::div_mod::lemma_mod_twice(xr * row_y, md);
    }
    lemma_sum_congruent(lhs_t, rhs_t, k as int);
}

/// The folded polynomial at `y`: `Fold(f)(y) = sum_r alpha^r f_r(y)` modulo `p`.
proof fn lemma_fold_coeffs_value(f: Seq<Fp>, k: nat, alpha: int, y: int, q: nat)
    requires
        k >= 1,
        q * k >= f.len(),
    ensures
        fmod(poly_eval(fold_coeffs(f, k, alpha), y)) == fmod(
            sum(|r: int| fmod(pow(alpha, r as nat)) * row_value(f, k, r, y, q), k as int),
        ),
{
    let md = MODULUS as int;
    let fc = fold_coeffs(f, k, alpha);
    let l = fc.len();
    let ki = k as int;
    let flen = f.len() as int;
    let nn = flen + ki - 1;
    let q0 = nn / ki;
    let r0 = nn % ki;
    vstd::arithmetic::div_mod::lemma_fundamental_div_mod(nn, ki);
    vstd::arithmetic::div_mod::lemma_mod_bound(nn, ki);
    assert(l == q0);
    assert(l * ki >= flen) by (nonlinear_arith)
        requires
            nn == ki * q0 + r0,
            0 <= r0 < ki,
            l == q0,
            nn == flen + ki - 1,
    ;
    assert(l <= q) by (nonlinear_arith)
        requires
            nn == ki * q0 + r0,
            0 <= r0,
            l == q0,
            nn == flen + ki - 1,
            q * ki >= flen,
            ki >= 1,
    ;
    lemma_poly_eval_as_long_sum(fc, y, q as int);
    let cell = |b: int, r: int| fmod(pow(alpha, r as nat)) * coef(f, b * k + r) * pow(y, b as nat);
    let srow = |b: int| sum(|r: int| cell(b, r), ki);
    assert forall|b: int| 0 <= b < q implies fmod(#[trigger] poly_terms(fc, y)(b)) == fmod(srow(b)) by {
        let sb = sum(|r: int| fmod(pow(alpha, r as nat)) * coef(f, b * k + r), ki);
        assert forall|r: int| 0 <= r < ki implies #[trigger] cell(b, r) == pow(y, b as nat) * (fmod(
            pow(alpha, r as nat),
        ) * coef(f, b * k + r)) by {
            let a1 = fmod(pow(alpha, r as nat));
            let a2 = coef(f, b * k + r);
            let a3 = pow(y, b as nat);
            assert(a1 * a2 * a3 == a3 * (a1 * a2)) by (nonlinear_arith);
        }
        lemma_sum_scale(|r: int| fmod(pow(alpha, r as nat)) * coef(f, b * k + r), |r: int| cell(b, r), pow(y, b as nat), ki);
        if b < l {
            lemma_from_val(fmod(sb) as nat);
            assert(coef(fc, b) == fmod(sb));
            lemma_mul_mod_noop_general(sb, pow(y, b as nat), md);
            vstd::arithmetic::div_mod::lemma_mod_twice(sb, md);
            assert(sb * pow(y, b as nat) == pow(y, b as nat) * sb) by (nonlinear_arith);
        } else {
            assert(coef(fc, b) == 0);
            assert forall|r: int| 0 <= r < ki implies #[trigger] coef(f, b * k + r) == 0 by {
                assert(b * k + r >= l * k) by (nonlinear_arith)
                    requires
                        b >= l,
                        r >= 0,
                        k >= 1,
                ;
            }
            crate::sums::lemma_sum_zero(|r: int| fmod(pow(alpha, r as nat)) * coef(f, b * k + r), ki);
        }
    }
    lemma_sum_congruent(poly_terms(fc, y), srow, q as int);
    lemma_sum_swap(cell, q as int, ki);
    let scol = |r: int| sum(|b: int| cell(b, r), q as int);
    let target = |r: int| fmod(pow(alpha, r as nat)) * row_value(f, k, r, y, q);
    assert forall|r: int| 0 <= r < ki implies #[trigger] scol(r) == target(r) by {
        let a1 = fmod(pow(alpha, r as nat));
        let row = |b: int| coef(f, b * k + r) * pow(y, b as nat);
        assert forall|b: int| 0 <= b < q implies #[trigger] cell(b, r) == a1 * row(b) by {
            let a2 = coef(f, b * k + r);
            let a3 = pow(y, b as nat);
            assert(a1 * a2 * a3 == a1 * (a2 * a3)) by (nonlinear_arith);
        }
        lemma_sum_scale(row, |b: int| cell(b, r), a1, q as int);
    }
    lemma_sum_ext(scol, target, ki);
}

/// Powers of powers of the generator: if `x = 7^e` modulo `p` then `x^i = 7^(e i)`.
proof fn lemma_generator_power_pow(x: int, e: nat, i: nat)
    requires
        fmod(x) == fmod(pow(MULTIPLICATIVE_GENERATOR as int, e)),
    ensures
        fmod(pow(x, i)) == fmod(pow(MULTIPLICATIVE_GENERATOR as int, e * i)),
{
    let md = MODULUS as int;
    let g = MULTIPLICATIVE_GENERATOR as int;
    lemma_pow_mod_noop(x, i, md);
    lemma_pow_mod_noop(pow(g, e), i, md);
    lemma_pow_multiplies(g, e, i);
}

/// A point `c w^j` of a domain whose offset is `c = 7^e0` is a power of the generator.
proof fn lemma_point_is_generator_power(d: EvaluationDomain, e0: nat, j: nat)
    requires
        d.wf(),
        d.spec_offset().val() == fmod(pow(MULTIPLICATIVE_GENERATOR as int, e0)),
    ensures
        fmod(d.point(j as int)) == fmod(
            pow(
                MULTIPLICATIVE_GENERATOR as int,
                e0 + (crate::field::group_order() / pow2(d.spec_log_size())) * j,
            ),
        ),
{
    let md = MODULUS as int;
    let g = MULTIPLICATIVE_GENERATOR as int;
    let e = crate::field::group_order() / pow2(d.spec_log_size());
    crate::domain::lemma_domain_wf(d);
    let w = d.spec_generator().val() as int;
    let c = d.spec_offset().val() as int;
    assert(w == pow(g, e) % md);
    vstd::arithmetic::div_mod::lemma_mod_twice(pow(g, e), md);
    lemma_generator_power_pow(w, e, j);
    lemma_mul_mod_noop_general(c, pow(w, j), md);
    lemma_mul_mod_noop_general(pow(g, e0), pow(g, e * j), md);
    vstd::arithmetic::div_mod::lemma_mod_twice(pow(g, e0), md);
    vstd::arithmetic::div_mod::lemma_mod_twice(c * pow(w, j), md);
    lemma_pow_adds(g, e0, e * j);
}

/// The Folding theorem: on a domain `L = c <w>`, folding the codeword of
/// `f` (`|f| <= |L|`) by `k = 2^a` with randomness `alpha` gives, at fibre
/// representative `x_j = c w^j`, the folded polynomial `Fold(f, k, alpha)`
/// evaluated at `x_j^k`.
pub proof fn lemma_folding_theorem(f: Seq<Fp>, d: EvaluationDomain, k: nat, a: nat, alpha: int, j: nat)
    requires
        d.wf(),
        f.len() <= d.spec_size(),
        forall|i: int| 0 <= i < f.len() ==> (#[trigger] f[i]).val() < MODULUS,
        k == pow2(a),
        k >= 2,
        d.spec_size() % k == 0,
        j < d.spec_size() / k,
    ensures
        fold_value(codeword(f, d), k, alpha, d, j as int) == fmod(
            poly_eval(fold_coeffs(f, k, alpha), fmod(pow(d.point(j as int), k))),
        ),
{
    crate::domain::lemma_domain_wf(d);
    // The offset is a power `7^e0` of the generator.
    let e0 = crate::generator::lemma_discrete_log(d.spec_offset().val() as int);
    folding_theorem_at_power(f, d, k, a, alpha, e0, j);
}

/// The Folding theorem on a domain whose offset is written `c = 7^e0`.
proof fn folding_theorem_at_power(f: Seq<Fp>, d: EvaluationDomain, k: nat, a: nat, alpha: int, e0: nat, j: nat)
    requires
        d.wf(),
        f.len() <= d.spec_size(),
        forall|i: int| 0 <= i < f.len() ==> (#[trigger] f[i]).val() < MODULUS,
        k == pow2(a),
        k >= 2,
        d.spec_size() % k == 0,
        d.spec_offset().val() == fmod(pow(MULTIPLICATIVE_GENERATOR as int, e0)),
        j < d.spec_size() / k,
    ensures
        fold_value(codeword(f, d), k, alpha, d, j as int) == fmod(
            poly_eval(fold_coeffs(f, k, alpha), fmod(pow(d.point(j as int), k))),
        ),
{
    let md = MODULUS as int;
    let n = d.spec_size();
    let evals = codeword(f, d);
    let m = (n / k) as nat;
    let w = d.spec_generator().val() as int;
    let c = d.spec_offset().val() as int;
    let wk = fmod(pow(w, m));
    let x = d.point(j as int);
    let y = fmod(pow(x, k));
    let b = fibre_coeffs(f, k, x, n);
    crate::domain::lemma_domain_wf(d);
    assert(is_pow2(k)) by {
        crate::fft::lemma_pow2_is_pow2(a);
    }
    crate::fold::lemma_fold_root(d, k);
    assert(n * k >= f.len()) by (nonlinear_arith)
        requires
            k >= 2,
            f.len() <= n,
    ;
    assert(a <= 32) by {
        if a > 32 {
            vstd::arithmetic::power2::lemma_pow2_strictly_increases(32, a);
            vstd::arithmetic::power2::lemma2_to64();
            vstd::arithmetic::div_mod::lemma_mod_is_zero(n as nat, k);
        }
    }
    assert(k % 2 == 0);
    // The fibre of the codeword is the transform of the fibre coefficients.
    let fib = fibre(evals, j as int, m as int, k);
    assert forall|i: int| 0 <= i < k implies #[trigger] fib[i] == fft_values(b, wk)[i] by {
        let idx = j + i * m;
        assert(idx < n) by (nonlinear_arith)
            requires
                j < m,
                0 <= i < k,
                m * k == n,
                idx == j + i * m,
        ;
        assert(idx >= 0) by (nonlinear_arith)
            requires
                i >= 0,
                idx == j + i * m,
        ;
        // c w^(j + i m) = (c w^j) (w^m)^i modulo p.
        lemma_pow_adds(w, j, (i * m) as nat);
        assert((i * m) as nat == (m * i) as nat) by (nonlinear_arith)
            requires
                i >= 0,
        ;
        lemma_pow_multiplies(w, m, i as nat);
        lemma_pow_mod_noop(pow(w, m), i as nat, md);
        lemma_mul_mod_noop_general(c * pow(w, j), pow(w, (i * m) as nat), md);
        lemma_mul_mod_noop_general(c * pow(w, j), pow(wk, i as nat), md);
        vstd::arithmetic::div_mod::lemma_mod_twice(c * pow(w, j), md);
        lemma_mul_mod_noop_general(x, pow(wk, i as nat), md);
        assert(c * pow(w, j) * pow(w, (i * m) as nat) == c * pow(w, idx as nat)) by (nonlinear_arith)
            requires
                pow(w, idx as nat) == pow(w, j) * pow(w, (i * m) as nat),
        ;
        assert(fmod(d.point(idx)) == fmod(x * pow(wk, i as nat)));
        vstd::arithmetic::div_mod::lemma_mod_twice(c * pow(w, idx as nat), md);
        crate::fft::lemma_poly_eval_congruent(f, d.point(idx), x * pow(wk, i as nat));
        lemma_fibre_values(f, k, x, wk, n, i as nat);
        lemma_from_val(fmod(poly_eval(f, d.point(idx))) as nat);
        lemma_from_val(fmod(poly_eval(b, pow(wk, i as nat))) as nat);
        lemma_val_eq(fib[i], fft_values(b, wk)[i]);
    }
    assert(fib =~= fft_values(b, wk));
    assert forall|i: int| 0 <= i < b.len() implies (#[trigger] b[i]).val() < MODULUS by {
        lemma_from_val(fmod(pow(x, i as nat) * row_value(f, k, i, y, n)) as nat);
    }
    lemma_fft_round_trip(b, wk, a);
    let t = ifft_values(fib, wk);
    assert(t == b);
    // Each twisted term is alpha^r f_r(x^k).
    let e = crate::field::group_order() / pow2(d.spec_log_size());
    lemma_point_is_generator_power(d, e0, j);
    let lhs = |r: int| fold_term(t, alpha, x, r);
    let rhs = |r: int| fmod(pow(alpha, r as nat)) * row_value(f, k, r, y, n);
    assert forall|r: int| 0 <= r < k implies fmod(#[trigger] lhs(r)) == fmod(rhs(r)) by {
        let rn = r as nat;
        let xr = fmod(pow(x, rn));
        let row = row_value(f, k, r, y, n);
        let ar = fmod(pow(alpha, rn));
        vstd::arithmetic::div_mod::lemma_mod_twice(pow(x, rn), md);
        lemma_generator_power_pow(x, e0 + e * j, rn);
        lemma_generator_power_invertible((e0 + e * j) * rn);
        let iv = inv_val(xr);
        assert(fmod(xr * iv) == 1);
        assert(xr != 0) by {
            if xr == 0 {
                lemma_small_mod(0, MODULUS as nat);
            }
        }
        assert(inv_or_one_val(xr) == iv);
        lemma_from_val(fmod(pow(x, rn) * row) as nat);
        assert(t[r].val() == fmod(pow(x, rn) * row));
        // ar * (x^r row mod p) * iv = ar * row * (x^r iv) modulo p.
        let tv = fmod(pow(x, rn) * row);
        lemma_mul_mod_noop_general(ar * tv, iv, md);
        lemma_mul_mod_noop_general(ar, tv, md);
        lemma_mul_mod_noop_general(ar, pow(x, rn) * row, md);
        lemma_mul_mod_noop_general(ar * (pow(x, rn) * row), iv, md);
        assert(ar * (pow(x, rn) * row) * iv == (ar * row) * (pow(x, rn) * iv)) by (nonlinear_arith);
        lemma_mul_mod_noop_general(ar * row, pow(x, rn) * iv, md);
        lemma_mul_mod_noop_general(pow(x, rn), iv, md);
        assert(fmod(pow(x, rn) * iv) == fmod(xr * iv)) by {
            lemma_mul_mod_noop_general(xr, iv, md);
        }
        lemma_small_mod(1, MODULUS as nat);
        assert(ar * row * 1 == ar * row);
        assert(lhs(r) == ar * tv * inv_or_one_val(fmod(pow(x, rn))));
    }
    lemma_sum_congruent(lhs, rhs, k as int);
    lemma_fold_coeffs_value(f, k, alpha, y, n);
    assert(evals.len() == n);
}

} // verus!
