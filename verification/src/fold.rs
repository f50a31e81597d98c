//! Folding: `Fold(f, alpha, k)` collapses the `k` evaluations of `f` on a
//! fibre `{x : x^k = y}` into one evaluation of the folded function at `y`;
//! on coefficients, the folded polynomial is `sum_i alpha^i f_i(Y)` where
//! `f(X) = sum_i X^i f_i(X^k)`.
use crate::arith::{lemma_mod_add_congr, lemma_mod_mul_congr};
use crate::domain::{lemma_domain_wf, EvaluationDomain};
use crate::fft::{ifft_subgroup, ifft_values, inv_val, is_pow2, is_primitive_root};
use crate::field::{fmod, lemma_from_val, lemma_val_eq, Fp, MODULUS};
use crate::polynomial::{coef, poly_eval, strip, UnivariatePoly};
use crate::sums::sum;
use vstd::arithmetic::div_mod::{lemma_mod_twice, lemma_mul_mod_noop_general};
use vstd::arithmetic::power::pow;
use vstd::arithmetic::power2::pow2;
use vstd::prelude::*;

verus! {

/// The fibre of position `j`: the `k` evaluations `evals[j + i * m]`.
pub open spec fn fibre(evals: Seq<Fp>, j: int, m: int, k: nat) -> Seq<Fp> {
    Seq::new(k, |i: int| evals[j + i * m])
}

/// `x^(-1)`, or `1` for `x = 0`.
pub open spec fn inv_or_one_val(x: int) -> int {
    if fmod(x) == 0 {
        1
    } else {
        inv_val(x)
    }
}

/// The `i`-th term of a folded value: `alpha^i * t_i * x^(-i)`.
pub open spec fn fold_term(t: Seq<Fp>, alpha: int, x: int, i: int) -> int {
    fmod(pow(alpha, i as nat)) * t[i].val() * inv_or_one_val(fmod(pow(x, i as nat)))
}

/// The folded value at position `j`: the inverse FFT of the fibre (on
/// the `k`-th roots of unity `w_k = g^m`), twisted by `x_j^(-i)` and
/// combined with powers of `alpha`.
pub open spec fn fold_value(evals: Seq<Fp>, k: nat, alpha: int, domain: EvaluationDomain, j: int) -> int {
    let m = (evals.len() / k) as int;
    let wk = fmod(pow(domain.spec_generator().val() as int, m as nat));
    let t = ifft_values(fibre(evals, j, m, k), wk);
    fmod(sum(|i: int| fold_term(t, alpha, domain.point(j), i), k as int))
}

/// The coefficients of the folded polynomial before stripping:
/// `out[q] = sum_{i < k} alpha^i * c[q k + i]`.
pub open spec fn fold_coeffs(c: Seq<Fp>, k: nat, alpha: int) -> Seq<Fp> {
    Seq::new(
        ((c.len() + k - 1) / (k as int)) as nat,
        |q: int| Fp::from_val(fmod(sum(|i: int| fmod(pow(alpha, i as nat)) * coef(c, q * k + i), k as int)) as nat),
    )
}

/// `x^(-1)` through `Fp::inverse`, or `1` when `x = 0`.
pub fn inverse_or_one(x: Fp) -> (r: Fp)
    ensures
        r.val() == inv_or_one_val(x.val() as int),
{
    proof {
        use_type_invariant(&x);
        crate::field::lemma_canonical(x);
        vstd::arithmetic::div_mod::lemma_small_mod(x.val(), MODULUS as nat);
    }
    match x.inverse() {
        Some(y) => y,
        None => Fp::one(),
    }
}

/// Fold an evaluation table on `domain` by the factor `k` with randomness
/// `alpha`: entry `j` (for `j < n / k`) combines the fibre of `L[j]`.
pub fn fold(evals: &[Fp], folding_factor: u32, randomness: Fp, domain: &EvaluationDomain) -> (r: Vec<Fp>)
    requires
        folding_factor >= 1,
        is_pow2(folding_factor as nat),
        evals@.len() == domain.spec_size(),
        evals@.len() % (folding_factor as nat) == 0,
    ensures
        folding_factor == 1 ==> r@ == evals@,
        folding_factor > 1 ==> r@.len() == evals@.len() / (folding_factor as nat),
        folding_factor > 1 ==> forall|j: int| 0 <= j < r@.len() ==> (#[trigger] r@[j]).val() == fold_value(
            evals@,
            folding_factor as nat,
            randomness.val() as int,
            *domain,
            j,
        ),
        folding_factor > 1 ==> forall|j: int| 0 <= j < r@.len() ==> (#[trigger] r@[j]).val() == fmod(
            poly_eval(
                fold_coeffs(crate::fft::ifft_domain_values(evals@, *domain), folding_factor as nat, randomness.val() as int),
                fmod(pow(domain.point(j), folding_factor as nat)),
            ),
        ),
{
    crate::polynomial::coeffs_canonical(evals);
    let k = folding_factor as usize;
    let n = evals.len();
    if k == 1 {
        let mut out: Vec<Fp> = Vec::new();
        let mut i: usize = 0;
        while i < n
            invariant
                i <= n,
                n == evals@.len(),
                out@ == evals@.subrange(0, i as int),
            decreases n - i,
        {
            out.push(evals[i]);
            i = i + 1;
            assert(out@ =~= evals@.subrange(0, i as int));
        }
        assert(out@ =~= evals@);
        return out;
    }
    proof {
        use_type_invariant(domain);
        lemma_domain_wf(*domain);
    }
    let m = n / k;
    let ghost g = domain.spec_generator().val() as int;
    let omega_k = domain.generator().pow(m as u64);
    proof {
        lemma_fold_root(*domain, k as nat);
    }
    let alpha_powers = powers(randomness, k);
    let mut out: Vec<Fp> = Vec::new();
    let mut j: usize = 0;
    while j < m
        invariant
            j <= m,
            k == folding_factor,
            k >= 2,
            is_pow2(k as nat),
            n == evals@.len(),
            m == n / k,
            m * k == n,
            omega_k.val() == fmod(pow(g, m as nat)),
            g == domain.spec_generator().val(),
            is_primitive_root(omega_k.val() as int, k as nat),
            omega_k.val() != 0,
            alpha_powers@.len() == k,
            forall|i: int| 0 <= i < k ==> (#[trigger] alpha_powers@[i]).val() == fmod(
                pow(randomness.val() as int, i as nat),
            ),
            out@.len() == j,
            forall|jj: int| 0 <= jj < j ==> (#[trigger] out@[jj]).val() == fold_value(
                evals@,
                k as nat,
                randomness.val() as int,
                *domain,
                jj,
            ),
        decreases m - j,
    {
        let mut siblings: Vec<Fp> = Vec::new();
        let mut i: usize = 0;
        while i < k
            invariant
                i <= k,
                j < m,
                m * k == n,
                n == evals@.len(),
                siblings@ == fibre(evals@, j as int, m as int, k as nat).subrange(0, i as int),
            decreases k - i,
        {
            assert(j + i * m < n) by (nonlinear_arith)
                requires
                    j < m,
                    i < k,
                    m * k == n,
            ;
            siblings.push(evals[j + i * m]);
            i = i + 1;
            assert(siblings@ =~= fibre(evals@, j as int, m as int, k as nat).subrange(0, i as int));
        }
        assert(siblings@ =~= fibre(evals@, j as int, m as int, k as nat));
        let twisted = ifft_subgroup(siblings.as_slice(), omega_k);
        let x = domain.element(j);
        let mut x_pow = Fp::one();
        let mut folded = Fp::zero();
        let ghost t = twisted@;
        let ghost f = |ii: int| fold_term(t, randomness.val() as int, domain.point(j as int), ii);
        proof {
            vstd::arithmetic::power::lemma_pow0(x.val() as int);
            vstd::arithmetic::div_mod::lemma_small_mod(1, MODULUS as nat);
            vstd::arithmetic::div_mod::lemma_small_mod(0, MODULUS as nat);
            use_type_invariant(&x);
            crate::field::lemma_canonical(x);
        }
        let mut i: usize = 0;
        while i < k
            invariant
                i <= k,
                twisted@ == t,
                t.len() == k,
                alpha_powers@.len() == k,
                x.val() == domain.point(j as int),
                x.val() < MODULUS,
                forall|ii: int| 0 <= ii < k ==> (#[trigger] alpha_powers@[ii]).val() == fmod(
                    pow(randomness.val() as int, ii as nat),
                ),
                x_pow.val() == fmod(pow(x.val() as int, i as nat)),
                folded.val() == fmod(sum(f, i as int)),
                f == (|ii: int| fold_term(t, randomness.val() as int, domain.point(j as int), ii)),
            decreases k - i,
        {
            let inv = inverse_or_one(x_pow);
            let a_t = alpha_powers[i] * twisted[i];
            let term = a_t * inv;
            proof {
                let mm = MODULUS as int;
                let av = alpha_powers@[i as int].val() as int;
                let tv = t[i as int].val() as int;
                let iv = inv.val() as int;
                lemma_from_val(((av * tv) % mm) as nat);
                lemma_from_val(((a_t.val() * iv) % mm) as nat);
                lemma_from_val((folded.val() + term.val()) % (MODULUS as nat));
                assert(f(i as int) == av * tv * iv);
                lemma_mod_twice(av * tv, mm);
                lemma_mod_mul_congr(a_t.val() as int, av * tv, iv, iv, mm);
                lemma_mod_add_congr(sum(f, i as int), folded.val() as int, f(i as int), term.val() as int, mm);
                lemma_mod_twice(sum(f, i as int), mm);
                lemma_mod_twice(av * tv * iv, mm);
            }
            folded = folded + term;
            let next_pow = x_pow * x;
            proof {
                lemma_from_val((x_pow.val() * x.val()) % (MODULUS as nat));
                crate::decode::lemma_pow_step_mod(x.val() as int, i as nat, x_pow.val() as int);
            }
            x_pow = next_pow;
            i = i + 1;
        }
        out.push(folded);
        proof {
            assert(fold_value(evals@, k as nat, randomness.val() as int, *domain, j as int) == fmod(sum(f, k as int)));
        }
        j = j + 1;
    }
    proof {
        // The Folding theorem, applied to the interpolant of the table.
        let interp = crate::fft::ifft_domain_values(evals@, *domain);
        let alpha = randomness.val() as int;
        crate::fft_laws::lemma_domain_ifft_round_trip(evals@, *domain);
        assert forall|i: int| 0 <= i < interp.len() implies (#[trigger] interp[i]).val() < MODULUS by {
            let xv = crate::fft::ifft_values(evals@, domain.spec_generator().val() as int)[i].val() * pow(
                inv_val(domain.spec_offset().val() as int),
                i as nat,
            );
            vstd::arithmetic::div_mod::lemma_mod_bound(xv, MODULUS as int);
            lemma_from_val(fmod(xv) as nat);
        }
        assert(crate::encode::codeword(interp, *domain) =~= crate::fft::domain_values(interp, *domain));
        crate::params::lemma_tz_of_pow2(k as nat);
        crate::params::lemma_pow2_log(k as nat);
        assert forall|jj: int| 0 <= jj < out@.len() implies (#[trigger] out@[jj]).val() == fmod(
            poly_eval(fold_coeffs(interp, k as nat, alpha), fmod(pow(domain.point(jj), k as nat))),
        ) by {
            crate::fold_laws::lemma_folding_theorem(interp, *domain, k as nat, crate::params::log2_of(k as nat), alpha, jj as nat);
        }
    }
    out
}

/// `[1, a, a^2, ..., a^(k-1)]`.
fn powers(a: Fp, k: usize) -> (r: Vec<Fp>)
    ensures
        r@.len() == k,
        forall|i: int| 0 <= i < k ==> (#[trigger] r@[i]).val() == fmod(pow(a.val() as int, i as nat)),
{
    let mut v: Vec<Fp> = Vec::new();
    let mut acc = Fp::one();
    proof {
        vstd::arithmetic::power::lemma_pow0(a.val() as int);
        vstd::arithmetic::div_mod::lemma_small_mod(1, MODULUS as nat);
        use_type_invariant(&a);
        crate::field::lemma_canonical(a);
    }
    let mut i: usize = 0;
    while i < k
        invariant
            i <= k,
            v@.len() == i,
            a.val() < MODULUS,
            acc.val() == fmod(pow(a.val() as int, i as nat)),
            forall|ii: int| 0 <= ii < i ==> (#[trigger] v@[ii]).val() == fmod(pow(a.val() as int, ii as nat)),
        decreases k - i,
    {
        v.push(acc);
        let next = acc * a;
        proof {
            lemma_from_val((acc.val() * a.val()) % (MODULUS as nat));
            vstd::arithmetic::div_mod::lemma_small_mod(a.val(), MODULUS as nat);
            crate::decode::lemma_pow_step_mod(a.val() as int, i as nat, acc.val() as int);
        }
        acc = next;
        i = i + 1;
    }
    v
}

/// `g^(n/k)` is a primitive `k`-th root of unity for the generator `g` of a domain of size `n`.
pub proof fn lemma_fold_root(d: EvaluationDomain, k: nat)
    requires
        d.wf(),
        k >= 2,
        is_pow2(k),
        d.spec_size() % k == 0,
    ensures
        ({
            let m = (d.spec_size() / k) as nat;
            let w = fmod(pow(d.spec_generator().val() as int, m));
            &&& is_primitive_root(w, k)
            &&& w != 0
            &&& m * k == d.spec_size()
        }),
{
    lemma_domain_wf(d);
    let n = d.spec_size();
    let m = (n / k) as nat;
    let g = d.spec_generator().val() as int;
    let mm = MODULUS as int;
    vstd::arithmetic::div_mod::lemma_fundamental_div_mod(n as int, k as int);
    assert(m * k == n);
    // k / 2 is an integer and m * (k / 2) == n / 2 == 2^(log n - 1)
    assert(k % 2 == 0) by {
        reveal_with_fuel(is_pow2, 2);
    }
    let h = k / 2;
    assert(m * h * 2 == n) by (nonlinear_arith)
        requires
            m * k == n,
            k == 2 * h,
    ;
    assert(n >= 2) by (nonlinear_arith)
        requires
            m * k == n,
            n > 0,
            k >= 2,
    ;
    let l = d.spec_log_size();
    if l == 0 {
        vstd::arithmetic::power2::lemma2_to64();
        assert(false);
    }
    vstd::arithmetic::power2::lemma_pow2_adds((l - 1) as nat, 1);
    vstd::arithmetic::power2::lemma2_to64();
    assert(pow2((l - 1) as nat) == m * h);
    let w = fmod(pow(g, m));
    vstd::arithmetic::power::lemma_pow_mod_noop(pow(g, m), h, mm);
    vstd::arithmetic::power::lemma_pow_mod_noop(g, m, mm);
    vstd::arithmetic::power::lemma_pow_multiplies(g, m, h);
    assert(pow(w, h) % mm == pow(pow(g, m), h) % mm) by {
        crate::arith::lemma_pow_congruent(w, pow(g, m), h, mm);
        lemma_mod_twice(pow(g, m), mm);
    }
    assert(pow(w, k / 2) % mm == MODULUS - 1);
    if w == 0 {
        vstd::arithmetic::power::lemma0_pow(h);
        assert(h >= 1);
        assert(false);
    }
}

/// Fold a polynomial's coefficients: `out[q] = sum_{i < k} alpha^i * c[q k + i]`.
pub fn poly_fold(poly: &UnivariatePoly, folding_factor: u32, randomness: Fp) -> (r: UnivariatePoly)
    requires
        folding_factor >= 1,
        poly@.len() + folding_factor <= usize::MAX,
    ensures
        poly@.len() == 0 ==> r@.len() == 0,
        poly@.len() > 0 && folding_factor == 1 ==> r@ == poly@,
        poly@.len() > 0 && folding_factor > 1 ==> r@ == strip(
            fold_coeffs(poly@, folding_factor as nat, randomness.val() as int),
        ),
        folding_factor > 1 ==> r@.len() <= (poly@.len() + folding_factor - 1) as int / (folding_factor as int),
{
    let k = folding_factor as usize;
    let coeffs = poly.coeffs();
    if coeffs.len() == 0 {
        return UnivariatePoly::zero();
    }
    if k == 1 {
        let copy = crate::decode::copy_coeffs(coeffs);
        return UnivariatePoly::from_coeffs_unstripped(copy);
    }
    let d = coeffs.len();
    let row_len = (d + k - 1) / k;
    let ghost c = poly@;
    let ghost al = randomness.val() as int;
    let ghost target = fold_coeffs(c, k as nat, al);
    let mut out: Vec<Fp> = Vec::new();
    let mut q0: usize = 0;
    proof {
        vstd::arithmetic::div_mod::lemma_small_mod(0, MODULUS as nat);
    }
    while q0 < row_len
        invariant
            q0 <= row_len,
            out@.len() == q0,
            forall|q: int| 0 <= q < q0 ==> (#[trigger] out@[q]).val() == 0,
        decreases row_len - q0,
    {
        out.push(Fp::zero());
        q0 = q0 + 1;
    }
    let mut alpha_pow = Fp::one();
    proof {
        vstd::arithmetic::power::lemma_pow0(al);
        vstd::arithmetic::div_mod::lemma_small_mod(1, MODULUS as nat);
        use_type_invariant(&randomness);
        crate::field::lemma_canonical(randomness);
        assert forall|q: int| 0 <= q < row_len implies (#[trigger] out@[q]).val() == fmod(
            sum(|i: int| fmod(pow(al, i as nat)) * coef(c, q * k + i), 0),
        ) by {}
    }
    let mut i: usize = 0;
    while i < k
        invariant
            i <= k,
            k == folding_factor,
            k >= 2,
            d == c.len(),
            d + k <= usize::MAX,
            d >= 1,
            coeffs@ == c,
            row_len == ((d + k - 1) as int) / (k as int),
            al == randomness.val(),
            randomness.val() < MODULUS,
            out@.len() == row_len,
            alpha_pow.val() == fmod(pow(al, i as nat)),
            forall|q: int| 0 <= q < row_len ==> (#[trigger] out@[q]).val() == fmod(
                sum(|ii: int| fmod(pow(al, ii as nat)) * coef(c, q * k + ii), i as int),
            ),
        decreases k - i,
    {
        let mut q: usize = 0;
        let mut pos: usize = i;
        while pos < d
            invariant
                i < k,
                k >= 2,
                d == c.len(),
                d + k <= usize::MAX,
                coeffs@ == c,
                row_len == ((d + k - 1) as int) / (k as int),
                pos == q * k + i,
                out@.len() == row_len,
                alpha_pow.val() == fmod(pow(al, i as nat)),
                forall|qq: int| 0 <= qq < q ==> (#[trigger] out@[qq]).val() == fmod(
                    sum(|ii: int| fmod(pow(al, ii as nat)) * coef(c, qq * k + ii), (i + 1) as int),
                ),
                forall|qq: int| q <= qq < row_len ==> (#[trigger] out@[qq]).val() == fmod(
                    sum(|ii: int| fmod(pow(al, ii as nat)) * coef(c, qq * k + ii), i as int),
                ),
            decreases row_len - q,
        {
            assert(q < row_len) by (nonlinear_arith)
                requires
                    pos == q * k + i,
                    pos < d,
                    row_len == ((d + k - 1) as int) / (k as int),
                    k >= 2,
            {
                vstd::arithmetic::div_mod::lemma_div_is_ordered((q * k + k) as int, (d + k - 1) as int, k as int);
                vstd::arithmetic::div_mod::lemma_div_multiples_vanish_fancy((q + 1) as int, 0, k as int);
            }
            let cur = out[q];
            let add = alpha_pow * coeffs[pos];
            let nv = cur + add;
            proof {
                let mm = MODULUS as int;
                let fq = |ii: int| fmod(pow(al, ii as nat)) * coef(c, q as int * k + ii);
                assert(fq(i as int) == alpha_pow.val() * coeffs@[pos as int].val());
                lemma_from_val((alpha_pow.val() * coeffs@[pos as int].val()) % (MODULUS as nat));
                lemma_from_val((cur.val() + add.val()) % (MODULUS as nat));
                lemma_mod_twice(fq(i as int), mm);
                lemma_mod_twice(sum(fq, i as int), mm);
                lemma_mod_add_congr(cur.val() as int, sum(fq, i as int), add.val() as int, fq(i as int), mm);
                assert(sum(fq, (i + 1) as int) == sum(fq, i as int) + fq(i as int));
            }
            out.set(q, nv);
            assert((q + 1) * k + i == q * k + i + k) by (nonlinear_arith);
            pos = pos + k;
            q = q + 1;
        }
        proof {
            assert forall|qq: int| q <= qq < row_len implies (#[trigger] out@[qq]).val() == fmod(
                sum(|ii: int| fmod(pow(al, ii as nat)) * coef(c, qq * k + ii), (i + 1) as int),
            ) by {
                let fq = |ii: int| fmod(pow(al, ii as nat)) * coef(c, qq * k + ii);
                assert(qq * k + i >= q * k + i) by (nonlinear_arith)
                    requires
                        qq >= q,
                        k >= 0,
                ;
                assert(coef(c, qq * k + i) == 0);
                assert(fq(i as int) == 0) by {
                    vstd::arithmetic::mul::lemma_mul_basics(fmod(pow(al, i as nat)));
                }
                assert(sum(fq, (i + 1) as int) == sum(fq, i as int) + fq(i as int));
            }
        }
        let next = alpha_pow * randomness;
        proof {
            lemma_from_val((alpha_pow.val() * randomness.val()) % (MODULUS as nat));
            vstd::arithmetic::div_mod::lemma_small_mod(randomness.val(), MODULUS as nat);
            crate::decode::lemma_pow_step_mod(al, i as nat, alpha_pow.val() as int);
        }
        alpha_pow = next;
        i = i + 1;
    }
    proof {
        assert forall|q: int| 0 <= q < row_len implies out@[q] == target[q] by {
            lemma_from_val(fmod(sum(|ii: int| fmod(pow(al, ii as nat)) * coef(c, q * k + ii), k as int)) as nat);
            lemma_val_eq(out@[q], target[q]);
        }
        assert(out@ =~= target);
        crate::polynomial::lemma_strip(target);
    }
    UnivariatePoly::new(out)
}

} // verus!
