//! Degree correction: multiplying `f` by `g_r(X) = sum_{i <= e} (r X)^i`
//! raises its degree by exactly `e`. On evaluations, `g_r(x)` is computed
//! in closed form, `(1 - (r x)^(e+1)) / (1 - r x)`, or `e + 1` when `r x = 1`.
use crate::arith::{lemma_mod_add_congr, lemma_mod_mul_congr};
use crate::decode::copy_coeffs;
use crate::domain::EvaluationDomain;
use crate::fft::inv_val;
use crate::field::{fmod, lemma_from_val, lemma_val_eq, Fp, MODULUS};
use crate::polynomial::{coef, mul_seq, poly_eval, strip, UnivariatePoly};
use crate::sums::{lemma_poly_eval_as_sum, lemma_sum_congruent, poly_terms, sum};
use vstd::arithmetic::div_mod::{lemma_mod_twice, lemma_mul_mod_noop_general, lemma_small_mod};
use vstd::arithmetic::power::pow;
use vstd::prelude::*;

verus! {

/// `g_r(x)` in closed form, as `eval_g_r` computes it.
pub open spec fn g_r_value(r: int, x: int, e: nat) -> int {
    let rx = fmod(r * x);
    if rx == 1 {
        fmod((e + 1) as int)
    } else {
        fmod(fmod(1 - fmod(pow(rx, e + 1))) * inv_val(fmod(1 - rx)))
    }
}

/// The coefficients `[1, r, r^2, ..., r^e]` of `g_r`.
pub open spec fn geometric_coeffs(r: int, e: nat) -> Seq<Fp> {
    Seq::new(e + 1, |i: int| Fp::from_val(fmod(pow(r, i as nat)) as nat))
}

/// `g_r(x)` at one point.
pub fn eval_g_r(r: Fp, x: Fp, e: usize) -> (v: Fp)
    requires
        e < u64::MAX,
    ensures
        v.val() == g_r_value(r.val() as int, x.val() as int, e as nat),
{
    let rx = r * x;
    let one = Fp::one();
    proof {
        lemma_from_val((r.val() * x.val()) % (MODULUS as nat));
    }
    if rx == one {
        proof {
            lemma_val_eq(rx, one);
        }
        let v = Fp::new((e as u64) + 1);
        proof {
            assert(fmod((e + 1) as int) == ((e as u64 + 1) as u64) % MODULUS);
        }
        v
    } else {
        proof {
            lemma_val_eq(rx, one);
            use_type_invariant(&rx);
            crate::field::lemma_canonical(rx);
        }
        let p = rx.pow((e as u64) + 1);
        let num = one - p;
        let den = one - rx;
        proof {
            lemma_small_mod(rx.val(), MODULUS as nat);
            lemma_from_val(((1 - p.val()) % (MODULUS as int)) as nat);
            lemma_from_val(((1 - rx.val()) % (MODULUS as int)) as nat);
            assert(den.val() != 0) by {
                if den.val() == 0 {
                    assert(fmod(1 - rx.val()) == 0);
                    assert(rx.val() == 1) by {
                        if rx.val() == 0 {
                            lemma_small_mod(1, MODULUS as nat);
                        } else {
                            assert(1 - rx.val() + (MODULUS as int) < MODULUS as int + 1);
                            vstd::arithmetic::div_mod::lemma_mod_add_multiples_vanish(1 - rx.val(), MODULUS as int);
                            lemma_small_mod((1 - rx.val() + MODULUS) as nat, MODULUS as nat);
                        }
                    }
                }
            }
        }
        let den_inv = match den.inverse() {
            Some(y) => y,
            None => {
                proof {
                    assert(false);
                }
                Fp::zero()
            },
        };
        let v = num * den_inv;
        proof {
            lemma_from_val((num.val() * den_inv.val()) % (MODULUS as nat));
            lemma_small_mod(den.val(), MODULUS as nat);
        }
        v
    }
}

/// With `r = 0` the correction factor is `g_0(x) = 1`, so degree
/// correction by `r = 0` leaves every value unchanged.
pub proof fn lemma_g_r_at_zero(x: int, e: nat)
    ensures
        g_r_value(0, x, e) == 1,
{
    let m = MODULUS as int;
    lemma_small_mod(0, MODULUS as nat);
    lemma_small_mod(1, MODULUS as nat);
    vstd::arithmetic::power::lemma0_pow(e + 1);
    vstd::arithmetic::power::lemma1_pow((MODULUS - 2) as nat);
    assert(fmod(0 * x) == 0);
    assert(fmod(pow(0, e + 1)) == 0);
    assert(fmod(1 - 0) == 1);
    assert(inv_val(1) == 1);
}

/// `g_r(x) = 1 + (r x) + (r x)^2 + ... + (r x)^e`: the closed form that
/// `eval_g_r` computes equals the geometric sum, for every `r` and `x`.
pub proof fn lemma_g_r_geometric(r: int, x: int, e: nat)
    ensures
        g_r_value(r, x, e) == fmod(sum(|i: int| pow(fmod(r * x), i as nat), (e + 1) as int)),
{
    let m = MODULUS as int;
    let y = fmod(r * x);
    let f = |i: int| pow(y, i as nat);
    let s = sum(f, (e + 1) as int);
    lemma_geometric_telescope(y, e);
    if y == 1 {
        assert forall|i: int| 0 <= i < e + 1 implies #[trigger] f(i) == 1 by {
            vstd::arithmetic::power::lemma1_pow(i as nat);
        }
        lemma_sum_ones_dc(f, (e + 1) as int);
    } else {
        let d = fmod(1 - y);
        let iv = inv_val(d);
        vstd::arithmetic::div_mod::lemma_mod_bound(r * x, m);
        vstd::arithmetic::div_mod::lemma_mod_bound(1 - y, m);
        assert(d != 0) by {
            if d == 0 {
                vstd::arithmetic::div_mod::lemma_fundamental_div_mod(1 - y, m);
                let q = (1 - y) / m;
                assert(1 - y == m * q);
                assert(false) by (nonlinear_arith)
                    requires
                        1 - y == m * q,
                        1 - y != 0,
                        1 - y > -m,
                        1 - y <= 1,
                        m > 1,
                ;
            }
        }
        lemma_mod_twice(1 - y, m);
        crate::generator::lemma_inv_val_correct(d);
        // s * (1 - y) = 1 - y^(e+1), so s = (1 - y^(e+1)) * (1 - y)^(-1).
        let num = fmod(1 - fmod(pow(y, e + 1)));
        lemma_sub_mod_noop_dc(1, pow(y, e + 1));
        assert(fmod(s * (1 - y)) == num);
        lemma_mul_mod_noop_general(s, 1 - y, m);
        lemma_mul_mod_noop_general(s, d, m);
        lemma_mod_twice(1 - y, m);
        assert(fmod(s * d) == num);
        lemma_mul_mod_noop_general(s * d, iv, m);
        lemma_mul_mod_noop_general(num, iv, m);
        lemma_mod_twice(num, m);
        assert((s * d) * iv == s * (d * iv)) by (nonlinear_arith);
        lemma_mul_mod_noop_general(s, d * iv, m);
        vstd::arithmetic::div_mod::lemma_mod_bound(1 - y, m);
        vstd::arithmetic::div_mod::lemma_mod_bound(pow(y, (MODULUS - 2) as nat), m);
        assert(fmod(s * 1) == fmod(s));
    }
}

/// `(1 + y + ... + y^e) * (1 - y) = 1 - y^(e+1)`.
proof fn lemma_geometric_telescope(y: int, e: nat)
    ensures
        sum(|i: int| pow(y, i as nat), (e + 1) as int) * (1 - y) == 1 - pow(y, e + 1),
    decreases e,
{
    let f = |i: int| pow(y, i as nat);
    reveal(pow);
    if e == 0 {
        assert(sum(f, 1) == sum(f, 0) + f(0));
        assert(pow(y, 1) == y * pow(y, 0));
    } else {
        lemma_geometric_telescope(y, (e - 1) as nat);
        assert(sum(f, (e + 1) as int) == sum(f, e as int) + f(e as int));
        assert(pow(y, e + 1) == y * pow(y, e));
        let a = sum(f, e as int);
        let b = pow(y, e);
        assert((a + b) * (1 - y) == a * (1 - y) + b - y * b) by (nonlinear_arith);
    }
}

/// `1 + 1 + ... + 1` (`n` terms) is `n`.
proof fn lemma_sum_ones_dc(f: spec_fn(int) -> int, n: int)
    requires
        n >= 0,
        forall|l: int| 0 <= l < n ==> #[trigger] f(l) == 1,
    ensures
        sum(f, n) == n,
    decreases n,
{
    if n > 0 {
        lemma_sum_ones_dc(f, n - 1);
    }
}

/// `(a - b) mod p = (a - (b mod p)) mod p`.
proof fn lemma_sub_mod_noop_dc(a: int, b: int)
    ensures
        fmod(a - b) == fmod(a - fmod(b)),
{
    vstd::arithmetic::div_mod::lemma_sub_mod_noop(a, b, MODULUS as int);
    vstd::arithmetic::div_mod::lemma_sub_mod_noop(a, fmod(b), MODULUS as int);
    lemma_mod_twice(b, MODULUS as int);
}

/// Multiply an evaluation table on `domain` pointwise by `g_r`.
pub fn deg_cor(evals: &[Fp], domain: &EvaluationDomain, target_degree: usize, randomness: Fp) -> (out: Vec<Fp>)
    requires
        evals@.len() == domain.spec_size(),
        target_degree < u64::MAX,
    ensures
        out@.len() == evals@.len(),
        forall|j: int| 0 <= j < out@.len() ==> (#[trigger] out@[j]).val() == fmod(
            evals@[j].val() * g_r_value(randomness.val() as int, domain.point(j), target_degree as nat),
        ),
{
    let n = evals.len();
    let mut out: Vec<Fp> = Vec::new();
    let mut j: usize = 0;
    while j < n
        invariant
            j <= n,
            n == evals@.len(),
            n == domain.spec_size(),
            target_degree < u64::MAX,
            out@.len() == j,
            forall|jj: int| 0 <= jj < j ==> (#[trigger] out@[jj]).val() == fmod(
                evals@[jj].val() * g_r_value(randomness.val() as int, domain.point(jj), target_degree as nat),
            ),
        decreases n - j,
    {
        let x = domain.element(j);
        let g = eval_g_r(randomness, x, target_degree);
        let v = evals[j] * g;
        proof {
            lemma_from_val((evals@[j as int].val() * g.val()) % (MODULUS as nat));
        }
        out.push(v);
        j = j + 1;
    }
    out
}

/// Combine two tables: `a[j] + r * b[j]`.
pub fn combine(evals_a: &[Fp], evals_b: &[Fp], randomness: Fp) -> (out: Vec<Fp>)
    requires
        evals_a@.len() == evals_b@.len(),
    ensures
        out@.len() == evals_a@.len(),
        forall|j: int| 0 <= j < out@.len() ==> (#[trigger] out@[j]).val() == fmod(
            evals_a@[j].val() + fmod((randomness.val() * evals_b@[j].val()) as int),
        ),
{
    let n = evals_a.len();
    let mut out: Vec<Fp> = Vec::new();
    let mut j: usize = 0;
    while j < n
        invariant
            j <= n,
            n == evals_a@.len(),
            n == evals_b@.len(),
            out@.len() == j,
            forall|jj: int| 0 <= jj < j ==> (#[trigger] out@[jj]).val() == fmod(
                evals_a@[jj].val() + fmod((randomness.val() * evals_b@[jj].val()) as int),
            ),
        decreases n - j,
    {
        let t = randomness * evals_b[j];
        let v = evals_a[j] + t;
        proof {
            lemma_from_val((randomness.val() * evals_b@[j as int].val()) % (MODULUS as nat));
            lemma_from_val((evals_a@[j as int].val() + t.val()) % (MODULUS as nat));
        }
        out.push(v);
        j = j + 1;
    }
    out
}

/// The coefficient form `[1, r, ..., r^e]` evaluates to the closed form
/// `g_r(x)`.
pub proof fn lemma_geometric_eval(r: int, x: int, e: nat)
    ensures
        fmod(poly_eval(geometric_coeffs(r, e), x)) == g_r_value(r, x, e),
{
    let m = MODULUS as int;
    let s = geometric_coeffs(r, e);
    let y = fmod(r * x);
    let f = poly_terms(s, x);
    let g = |i: int| pow(y, i as nat);
    lemma_poly_eval_as_sum(s, x);
    assert forall|i: int| 0 <= i < e + 1 implies fmod(#[trigger] f(i)) == fmod(g(i)) by {
        let ri = pow(r, i as nat);
        let xi = pow(x, i as nat);
        vstd::arithmetic::div_mod::lemma_mod_bound(ri, m);
        lemma_from_val(fmod(ri) as nat);
        assert(coef(s, i) == fmod(ri));
        lemma_mul_mod_noop_general(ri, xi, m);
        vstd::arithmetic::power::lemma_pow_distributes(r, x, i as nat);
        vstd::arithmetic::power::lemma_pow_mod_noop(r * x, i as nat, m);
    }
    lemma_sum_congruent(f, g, (e + 1) as int);
    lemma_g_r_geometric(r, x, e);
}

/// The degree-corrected polynomial `poly * g_r` (the input itself for `e = 0`).
pub fn poly_deg_cor(poly: &UnivariatePoly, e: usize, r: Fp) -> (out: UnivariatePoly)
    requires
        poly@.len() + e + 1 <= usize::MAX,
    ensures
        e == 0 ==> out@ == poly@,
        e > 0 && poly@.len() == 0 ==> out@.len() == 0,
        e > 0 && poly@.len() > 0 ==> out@ == strip(mul_seq(poly@, geometric_coeffs(r.val() as int, e as nat))),
        out@.len() <= poly@.len() + e,
        forall|x: int| #[trigger] fmod(poly_eval(out@, x)) == fmod(
            poly_eval(poly@, x) * g_r_value(r.val() as int, x, e as nat),
        ),
{
    if e == 0 {
        proof {
            assert forall|x: int| #[trigger] fmod(poly_eval(poly@, x)) == fmod(
                poly_eval(poly@, x) * g_r_value(r.val() as int, x, e as nat),
            ) by {
                lemma_g_r_geometric(r.val() as int, x, 0);
                let y = fmod(r.val() * x);
                let f = |i: int| pow(y, i as nat);
                assert(sum(f, 1) == sum(f, 0) + f(0));
                vstd::arithmetic::power::lemma_pow0(y);
                lemma_small_mod(1, MODULUS as nat);
                assert(g_r_value(r.val() as int, x, 0) == 1);
                assert(poly_eval(poly@, x) * 1 == poly_eval(poly@, x));
            }
        }
        return UnivariatePoly::from_coeffs_unstripped(copy_coeffs(poly.coeffs()));
    }
    let mut g_r_coeffs: Vec<Fp> = Vec::new();
    let mut acc = Fp::one();
    proof {
        vstd::arithmetic::power::lemma_pow0(r.val() as int);
        lemma_small_mod(1, MODULUS as nat);
        use_type_invariant(&r);
        crate::field::lemma_canonical(r);
    }
    let mut i: usize = 0;
    while i <= e
        invariant
            i <= e + 1,
            e + 1 <= usize::MAX,
            r.val() < MODULUS,
            g_r_coeffs@.len() == i,
            acc.val() == fmod(pow(r.val() as int, i as nat)),
            forall|ii: int| 0 <= ii < i ==> (#[trigger] g_r_coeffs@[ii]) == geometric_coeffs(r.val() as int, e as nat)[ii],
        decreases e + 1 - i,
    {
        proof {
            lemma_from_val(fmod(pow(r.val() as int, i as nat)) as nat);
            lemma_val_eq(acc, geometric_coeffs(r.val() as int, e as nat)[i as int]);
        }
        g_r_coeffs.push(acc);
        let next = acc * r;
        proof {
            lemma_from_val((acc.val() * r.val()) % (MODULUS as nat));
            lemma_small_mod(r.val(), MODULUS as nat);
            crate::decode::lemma_pow_step_mod(r.val() as int, i as nat, acc.val() as int);
        }
        acc = next;
        i = i + 1;
    }
    assert(g_r_coeffs@ =~= geometric_coeffs(r.val() as int, e as nat));
    let in_coeffs = poly.coeffs();
    if in_coeffs.len() == 0 {
        proof {
            assert forall|x: int| #[trigger] fmod(poly_eval(Seq::<Fp>::empty(), x)) == fmod(
                poly_eval(poly@, x) * g_r_value(r.val() as int, x, e as nat),
            ) by {
                assert(poly_eval(poly@, x) == 0);
                assert(0 * g_r_value(r.val() as int, x, e as nat) == 0);
            }
        }
        let z = UnivariatePoly::zero();
        assert(z@ =~= Seq::<Fp>::empty());
        return z;
    }
    let f = UnivariatePoly::from_coeffs_unstripped(copy_coeffs(in_coeffs));
    let g = UnivariatePoly::from_coeffs_unstripped(g_r_coeffs);
    proof {
        crate::polynomial::lemma_strip(mul_seq(poly@, geometric_coeffs(r.val() as int, e as nat)));
        assert forall|x: int| #[trigger] fmod(poly_eval(strip(mul_seq(poly@, geometric_coeffs(r.val() as int, e as nat))), x))
            == fmod(poly_eval(poly@, x) * g_r_value(r.val() as int, x, e as nat)) by {
            let gs = geometric_coeffs(r.val() as int, e as nat);
            crate::poly_laws::lemma_eval_mul(poly@, gs, x);
            lemma_geometric_eval(r.val() as int, x, e as nat);
            lemma_mul_mod_noop_general(poly_eval(poly@, x), poly_eval(gs, x), MODULUS as int);
            lemma_mul_mod_noop_general(poly_eval(poly@, x), g_r_value(r.val() as int, x, e as nat), MODULUS as int);
            vstd::arithmetic::div_mod::lemma_mod_bound(poly_eval(gs, x), MODULUS as int);
            lemma_mod_twice(poly_eval(gs, x), MODULUS as int);
        }
    }
    f * g
}

} // verus!
