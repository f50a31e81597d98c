//! Cooley-Tukey radix-2 FFT (the number theoretic transform) and its inverse.
//!
//! `fft_subgroup(coeffs, ω)` evaluates the polynomial with coefficients
//! `coeffs` at `ω^0, ω^1, ..., ω^(n-1)`; the coset variants evaluate at
//! `c·ω^j` by pre-scaling the coefficients with powers of `c`.
use crate::domain::{lemma_domain_wf, EvaluationDomain};
use crate::field::{fmod, lemma_from_val, lemma_val_eq, Fp, MODULUS};
use crate::polynomial::{coef, poly_eval};
use vstd::arithmetic::div_mod::{
    lemma_add_mod_noop, lemma_mod_bound, lemma_mod_twice, lemma_mul_mod_noop_general, lemma_small_mod,
    lemma_sub_mod_noop,
};
use vstd::arithmetic::power::{
    lemma0_pow, lemma1_pow, lemma_pow0, lemma_pow1, lemma_pow_adds, lemma_pow_distributes,
    lemma_pow_mod_noop, lemma_pow_multiplies, pow,
};
use vstd::arithmetic::power2::{lemma_pow2_adds, lemma_pow2_pos, pow2};
use vstd::prelude::*;

verus! {

/// `n` is a power of two (`1, 2, 4, ...`).
pub open spec fn is_pow2(n: nat) -> bool
    decreases n,
{
    if n == 0 {
        false
    } else if n == 1 {
        true
    } else {
        n % 2 == 0 && is_pow2(n / 2)
    }
}

/// `2^k` is a power of two.
pub proof fn lemma_pow2_is_pow2(k: nat)
    ensures
        is_pow2(pow2(k)),
    decreases k,
{
    lemma_pow2_pos(k);
    if k == 0 {
        vstd::arithmetic::power2::lemma2_to64();
    } else {
        lemma_pow2_is_pow2((k - 1) as nat);
        lemma_pow2_adds((k - 1) as nat, 1);
        vstd::arithmetic::power2::lemma2_to64();
        lemma_pow2_pos((k - 1) as nat);
        assert(pow2(k) == pow2((k - 1) as nat) * 2);
        assert(pow2(k) / 2 == pow2((k - 1) as nat));
    }
}

/// `w` is a primitive `n`-th root of unity for a power of two `n`: its
/// `n/2`-th power is `-1` (no condition for `n = 1`).
pub open spec fn is_primitive_root(w: int, n: nat) -> bool {
    n >= 2 ==> pow(w, n / 2) % (MODULUS as int) == MODULUS - 1
}

/// The multiplicative inverse `x^(p-2) mod p` that [`Fp::inverse`] computes.
pub open spec fn inv_val(x: int) -> int {
    pow(x, (MODULUS - 2) as nat) % (MODULUS as int)
}

/// The evaluations `[p(w^0), ..., p(w^(n-1))]` of the coefficients `c`.
pub open spec fn fft_values(c: Seq<Fp>, w: int) -> Seq<Fp> {
    Seq::new(c.len(), |j: int| Fp::from_val(fmod(poly_eval(c, pow(w, j as nat))) as nat))
}

/// What [`ifft_subgroup`] returns: `(1/n) · fft(evals, w^(-1))`.
pub open spec fn ifft_values(e: Seq<Fp>, w: int) -> Seq<Fp> {
    Seq::new(
        e.len(),
        |j: int|
            Fp::from_val(
                fmod(inv_val(e.len() as int) * poly_eval(e, pow(inv_val(w), j as nat))) as nat,
            ),
    )
}

/// Coefficients `a_i · c^i`, the change of variables `p(X) -> p(cX)`.
pub open spec fn scale_by_powers(a: Seq<Fp>, c: int) -> Seq<Fp> {
    Seq::new(a.len(), |i: int| Fp::from_val(fmod(a[i].val() * pow(c, i as nat)) as nat))
}

/// The entries at even indices.
pub open spec fn evens(c: Seq<Fp>) -> Seq<Fp> {
    Seq::new((c.len() + 1) / 2, |i: int| c[2 * i])
}

/// The entries at odd indices.
pub open spec fn odds(c: Seq<Fp>) -> Seq<Fp> {
    Seq::new(c.len() / 2, |i: int| c[2 * i + 1])
}

/// Even/odd split: `p(x) = E(x^2) + x · O(x^2)`, an identity over the integers.
pub proof fn lemma_even_odd_split(c: Seq<Fp>, x: int)
    ensures
        poly_eval(c, x) == poly_eval(evens(c), x * x) + x * poly_eval(odds(c), x * x),
    decreases c.len(),
{
    if c.len() == 0 {
    } else if c.len() == 1 {
        assert(evens(c).drop_first().len() == 0);
        assert(poly_eval(evens(c).drop_first(), x * x) == 0);
        assert(evens(c)[0] == c[0]);
        assert(odds(c).len() == 0);
        assert(poly_eval(odds(c), x * x) == 0);
        assert(c.drop_first().len() == 0);
        assert(poly_eval(c.drop_first(), x) == 0);
    } else {
        let r = c.subrange(2, c.len() as int);
        lemma_even_odd_split(r, x);
        assert(evens(c).drop_first() =~= evens(r));
        assert(odds(c).drop_first() =~= odds(r));
        assert(c.drop_first().drop_first() =~= r);
        assert(evens(c)[0] == c[0]);
        assert(odds(c)[0] == c[1]);
        assert(c.drop_first()[0] == c[1]);
        let er = poly_eval(evens(r), x * x);
        let or = poly_eval(odds(r), x * x);
        let c0 = c[0].val() as int;
        let c1 = c[1].val() as int;
        assert(poly_eval(c.drop_first(), x) == c1 + x * poly_eval(r, x));
        assert(poly_eval(c, x) == c0 + x * (c1 + x * (er + x * or)));
        assert(poly_eval(evens(c), x * x) == c0 + (x * x) * er);
        assert(poly_eval(odds(c), x * x) == c1 + (x * x) * or);
        assert(c0 + x * (c1 + x * (er + x * or)) == (c0 + (x * x) * er) + x * (c1 + (x * x) * or))
            by (nonlinear_arith);
    }
}

/// Polynomial values only depend on the point modulo `p`.
pub proof fn lemma_poly_eval_congruent(c: Seq<Fp>, x: int, y: int)
    requires
        fmod(x) == fmod(y),
    ensures
        fmod(poly_eval(c, x)) == fmod(poly_eval(c, y)),
    decreases c.len(),
{
    if c.len() > 0 {
        let m = MODULUS as int;
        lemma_poly_eval_congruent(c.drop_first(), x, y);
        let ex = poly_eval(c.drop_first(), x);
        let ey = poly_eval(c.drop_first(), y);
        lemma_mul_mod_noop_general(x, ex, m);
        lemma_mul_mod_noop_general(y, ey, m);
        lemma_add_mod_noop(c[0].val() as int, x * ex, m);
        lemma_add_mod_noop(c[0].val() as int, y * ey, m);
    }
}

/// `w^n = 1` for a primitive `n`-th root `w` (`n >= 2`).
pub proof fn lemma_root_full_power(w: int, n: nat)
    requires
        n >= 2,
        n % 2 == 0,
        is_primitive_root(w, n),
    ensures
        pow(w, n) % (MODULUS as int) == 1,
{
    let m = MODULUS as int;
    let h = n / 2;
    lemma_pow_adds(w, h, h);
    lemma_mul_mod_noop_general(pow(w, h), pow(w, h), m);
    assert(((m - 1) * (m - 1)) % m == 1) by (nonlinear_arith)
        requires
            m == MODULUS as int,
    ;
}

/// Squaring a primitive `n`-th root gives a primitive `n/2`-th root.
pub proof fn lemma_square_root_primitive(w: int, n: nat)
    requires
        n >= 2,
        is_pow2(n),
        is_primitive_root(w, n),
    ensures
        is_primitive_root(fmod(w * w), n / 2),
{
    let m = MODULUS as int;
    if n / 2 >= 2 {
        let q = n / 4;
        assert(n / 2 / 2 == q);
        lemma_pow_mod_noop(w * w, q, m);
        reveal(pow);
        assert(pow(w, 2) == w * pow(w, 1));
        assert(pow(w, 1) == w * pow(w, 0));
        lemma_pow_multiplies(w, 2, q);
        assert(is_pow2(n / 2));
        assert(2 * q == n / 2);
    }
}

/// `(a + b·t) mod p` and `(a - b·t) mod p` from the reduced factors.
pub proof fn lemma_butterfly_mod(a: int, b: int, t: int)
    ensures
        ((fmod(a) + fmod(fmod(t) * fmod(b))) % (MODULUS as int)) == fmod(a + t * b),
        ((fmod(a) - fmod(fmod(t) * fmod(b))) % (MODULUS as int)) == fmod(a - t * b),
{
    let m = MODULUS as int;
    lemma_mul_mod_noop_general(t, b, m);
    lemma_add_mod_noop(a, t * b, m);
    lemma_sub_mod_noop(a, t * b, m);
}

/// The entry `k + n/2` of a transform uses the point `-w^k`.
pub proof fn lemma_half_turn(w: int, n: nat, k: nat)
    requires
        n >= 2,
        n % 2 == 0,
        is_primitive_root(w, n),
    ensures
        fmod(pow(w, k + n / 2)) == fmod(-pow(w, k)),
        fmod(pow(w, k + n / 2) * pow(w, k + n / 2)) == fmod(pow(w, k) * pow(w, k)),
{
    let m = MODULUS as int;
    let h = n / 2;
    lemma_pow_adds(w, k, h);
    lemma_mul_mod_noop_general(pow(w, k), pow(w, h), m);
    assert(pow(w, k) * (m - 1) == m * pow(w, k) - pow(w, k)) by (nonlinear_arith);
    vstd::arithmetic::div_mod::lemma_mod_sub_multiples_vanish(-pow(w, k), m);
    assert(fmod(pow(w, k) * (m - 1)) == fmod(-pow(w, k))) by {
        vstd::arithmetic::div_mod::lemma_mod_multiples_vanish(pow(w, k), -pow(w, k), m);
    }
    let x = pow(w, k + h);
    let y = pow(w, k);
    lemma_mul_mod_noop_general(x, x, m);
    lemma_mul_mod_noop_general(-y, -y, m);
    assert((-y) * (-y) == y * y) by (nonlinear_arith);
}

/// The first `n/2` points of an `n`-transform, squared, are the points of
/// the half-size transform at `w^2`.
pub proof fn lemma_square_point(w: int, k: nat)
    ensures
        fmod(pow(w, k) * pow(w, k)) == fmod(pow(fmod(w * w), k)),
{
    let m = MODULUS as int;
    lemma_pow_adds(w, k, k);
    reveal(pow);
    assert(pow(w, 2) == w * pow(w, 1));
    assert(pow(w, 1) == w * pow(w, 0));
    lemma_pow_multiplies(w, 2, k);
    lemma_pow_mod_noop(w * w, k, m);
    assert(k + k == 2 * k);
}

/// Forward FFT on the subgroup `<ω>`: returns `[p(ω^0), ..., p(ω^(n-1))]`.
pub fn fft_subgroup(coeffs: &[Fp], omega: Fp) -> (r: Vec<Fp>)
    requires
        is_pow2(coeffs@.len()),
        is_primitive_root(omega.val() as int, coeffs@.len()),
    ensures
        r@ == fft_values(coeffs@, omega.val() as int),
    decreases coeffs@.len(),
{
    let n = coeffs.len();
    let ghost w = omega.val() as int;
    proof {
        use_type_invariant(&omega);
        crate::field::lemma_canonical(omega);
    }
    if n == 1 {
        let mut r = Vec::new();
        let c0 = coeffs[0];
        r.push(c0);
        proof {
            broadcast use lemma_val_eq;
            broadcast use lemma_from_val;

            use_type_invariant(&c0);
            crate::field::lemma_canonical(c0);
            lemma_pow0(w);
            assert(coeffs@.drop_first().len() == 0);
            lemma_small_mod(c0.val(), MODULUS as nat);
            assert(coeffs@[0] == c0);
            assert(poly_eval(coeffs@.drop_first(), 1) == 0);
            assert(poly_eval(coeffs@, 1) == c0.val());
            assert(Fp::from_val(c0.val()).val() == c0.val());
            assert(Fp::from_val(c0.val()) == c0);
            assert(r@ =~= fft_values(coeffs@, w));
        }
        return r;
    }
    let half = n / 2;
    let mut ev: Vec<Fp> = Vec::with_capacity(half);
    let mut od: Vec<Fp> = Vec::with_capacity(half);
    for i in 0..half
        invariant
            half == n / 2,
            n == coeffs@.len(),
            n % 2 == 0,
            ev@.len() == i,
            od@.len() == i,
            forall|j: int| 0 <= j < i ==> ev@[j] == coeffs@[2 * j],
            forall|j: int| 0 <= j < i ==> od@[j] == coeffs@[2 * j + 1],
    {
        ev.push(coeffs[2 * i]);
        od.push(coeffs[2 * i + 1]);
    }
    proof {
        assert(ev@ =~= evens(coeffs@));
        assert(od@ =~= odds(coeffs@));
        lemma_square_root_primitive(w, n as nat);
    }
    let omega_sq = omega * omega;
    proof {
        broadcast use lemma_from_val;

    }
    let even_dft = fft_subgroup(ev.as_slice(), omega_sq);
    let odd_dft = fft_subgroup(od.as_slice(), omega_sq);
    let mut result: Vec<Fp> = vec![Fp::zero(); n];
    let mut twiddle = Fp::one();
    proof {
        lemma_pow0(w);
        lemma_small_mod(1, MODULUS as nat);
    }
    for k in 0..half
        invariant
            half == n / 2,
            n == coeffs@.len(),
            n >= 2,
            n % 2 == 0,
            w == omega.val(),
            w < MODULUS,
            is_primitive_root(w, n as nat),
            omega_sq.val() == fmod(w * w),
            even_dft@ == fft_values(evens(coeffs@), omega_sq.val() as int),
            odd_dft@ == fft_values(odds(coeffs@), omega_sq.val() as int),
            evens(coeffs@).len() == half,
            odds(coeffs@).len() == half,
            result@.len() == n,
            twiddle.val() == fmod(pow(w, k as nat)),
            forall|j: int|
                0 <= j < k ==> #[trigger] result@[j] == fft_values(coeffs@, w)[j],
            forall|j: int|
                0 <= j < k ==> #[trigger] result@[j + half] == fft_values(coeffs@, w)[j + half],
    {
        let t = twiddle * odd_dft[k];
        let e = even_dft[k];
        let ghost x = pow(w, k as nat);
        let ghost ev_k = poly_eval(evens(coeffs@), pow(omega_sq.val() as int, k as nat));
        let ghost od_k = poly_eval(odds(coeffs@), pow(omega_sq.val() as int, k as nat));
        proof {
            broadcast use lemma_from_val;

            let m = MODULUS as int;
            // The points w^k and w^(k + n/2) square to w^(2k) = (w^2)^k.
            lemma_square_point(w, k as nat);
            lemma_mod_twice(w * w, m);
            lemma_pow_mod_noop(w * w, k as nat, m);
            lemma_pow_mod_noop(fmod(w * w), k as nat, m);
            lemma_poly_eval_congruent(evens(coeffs@), x * x, pow(omega_sq.val() as int, k as nat));
            lemma_poly_eval_congruent(odds(coeffs@), x * x, pow(omega_sq.val() as int, k as nat));
            lemma_even_odd_split(coeffs@, x);
            let y = pow(w, (k + half) as nat);
            lemma_half_turn(w, n as nat, k as nat);
            lemma_even_odd_split(coeffs@, y);
            lemma_poly_eval_congruent(evens(coeffs@), y * y, x * x);
            lemma_poly_eval_congruent(odds(coeffs@), y * y, x * x);
            let ex = poly_eval(evens(coeffs@), x * x);
            let ox = poly_eval(odds(coeffs@), x * x);
            let ey = poly_eval(evens(coeffs@), y * y);
            let oy = poly_eval(odds(coeffs@), y * y);
            // Top half: ex + x * ox.
            lemma_butterfly_mod(ex, ox, x);
            lemma_mul_mod_noop_general(x, ox, m);
            lemma_mul_mod_noop_general(fmod(x), fmod(ox), m);
            // Bottom half: ey + y * oy = ex - x * ox (mod p).
            lemma_mul_mod_noop_general(y, oy, m);
            lemma_mul_mod_noop_general(-x, ox, m);
            lemma_mul_mod_noop_general(fmod(y), fmod(oy), m);
            lemma_mul_mod_noop_general(fmod(-x), fmod(ox), m);
            lemma_add_mod_noop(ey, y * oy, m);
            lemma_add_mod_noop(ex, -x * ox, m);
            assert(ex - x * ox == ex + (-x) * ox) by (nonlinear_arith);
            assert(fmod(poly_eval(coeffs@, y)) == fmod(ex - x * ox));
            assert(fmod(poly_eval(coeffs@, x)) == fmod(ex + x * ox));
        }
        result.set(k, e + t);
        result.set(k + half, e - t);
        proof {
            broadcast use lemma_from_val;
            broadcast use lemma_val_eq;

        }
        twiddle = twiddle * omega;
        proof {
            broadcast use lemma_from_val;

            let m = MODULUS as int;
            lemma_pow_adds(w, k as nat, 1);
            reveal(pow);
            assert(pow(w, 1) == w * pow(w, 0));
            lemma_mul_mod_noop_general(pow(w, k as nat), w, m);
            lemma_small_mod(omega.val(), MODULUS as nat);
        }
    }
    proof {
        assert(result@ =~= fft_values(coeffs@, w)) by {
            assert forall|j: int| 0 <= j < n implies result@[j] == fft_values(coeffs@, w)[j] by {
                if j >= half {
                    assert(result@[(j - half) + half] == fft_values(coeffs@, w)[(j - half) + half]);
                }
            }
        }
    }
    result
}

/// `-1` to an odd power is `-1`.
pub proof fn lemma_neg_one_odd_pow(q: nat)
    ensures
        pow(-1, 2 * q + 1) == -1,
{
    lemma_pow_adds(-1, 2 * q, 1);
    lemma_pow_multiplies(-1, 2, q);
    reveal(pow);
    assert(pow(-1, 2) == -1 * pow(-1, 1));
    assert(pow(-1, 1) == -1 * pow(-1, 0));
    lemma1_pow(q);
}

/// The inverse `w^(p-2)` of a primitive `n`-th root is again primitive.
pub proof fn lemma_inverse_root_primitive(w: int, n: nat)
    requires
        is_primitive_root(w, n),
    ensures
        is_primitive_root(inv_val(w), n),
{
    if n >= 2 {
        let m = MODULUS as int;
        let h = n / 2;
        let e = (MODULUS - 2) as nat;
        lemma_pow_mod_noop(pow(w, e), h, m);
        lemma_pow_multiplies(w, e, h);
        lemma_pow_multiplies(w, h, e);
        assert(e * h == h * e) by (nonlinear_arith);
        lemma_pow_mod_noop(pow(w, h), e, m);
        lemma_pow_mod_noop(-1, e, m);
        assert(fmod(-1) == m - 1);
        assert(e == 2 * 9223372034707292159 + 1);
        lemma_neg_one_odd_pow(9223372034707292159);
    }
}

/// A power of two below `2^64` is not a multiple of `p`.
pub proof fn lemma_pow2_not_multiple(n: nat)
    requires
        is_pow2(n),
        n <= u64::MAX,
    ensures
        n % (MODULUS as nat) != 0,
{
    if n == 1 {
    } else {
        assert(n % 2 == 0);
        assert(n != MODULUS);
    }
}

/// Scaling every coefficient by `c` scales the value by `c`.
pub proof fn lemma_poly_eval_scalar(s: Seq<Fp>, t: Seq<Fp>, c: int, x: int)
    requires
        s.len() == t.len(),
        forall|i: int| 0 <= i < s.len() ==> fmod(#[trigger] s[i].val() as int) == fmod(c * t[i].val()),
    ensures
        fmod(poly_eval(s, x)) == fmod(c * poly_eval(t, x)),
    decreases s.len(),
{
    if s.len() > 0 {
        let m = MODULUS as int;
        assert forall|i: int| 0 <= i < s.drop_first().len() implies fmod(
            #[trigger] s.drop_first()[i].val() as int,
        ) == fmod(c * t.drop_first()[i].val()) by {
            assert(s.drop_first()[i] == s[i + 1]);
            assert(t.drop_first()[i] == t[i + 1]);
        }
        lemma_poly_eval_scalar(s.drop_first(), t.drop_first(), c, x);
        let es = poly_eval(s.drop_first(), x);
        let et = poly_eval(t.drop_first(), x);
        let s0 = s[0].val() as int;
        let t0 = t[0].val() as int;
        assert(fmod(s0) == fmod(c * t0));
        lemma_mul_mod_noop_general(x, es, m);
        lemma_mul_mod_noop_general(x, c * et, m);
        lemma_add_mod_noop(s0, x * es, m);
        lemma_add_mod_noop(c * t0, x * (c * et), m);
        assert(c * t0 + x * (c * et) == c * (t0 + x * et)) by (nonlinear_arith);
    }
}

/// Evaluating the coefficients `a_i c^i` at `x` is evaluating `a` at `c x`.
pub proof fn lemma_poly_eval_scaled(a: Seq<Fp>, c: int, x: int)
    ensures
        fmod(poly_eval(scale_by_powers(a, c), x)) == fmod(poly_eval(a, c * x)),
    decreases a.len(),
{
    if a.len() > 0 {
        let m = MODULUS as int;
        let s = scale_by_powers(a, c);
        let a1 = a.drop_first();
        let t = scale_by_powers(a1, c);
        lemma_poly_eval_scaled(a1, c, x);
        assert forall|i: int| 0 <= i < s.drop_first().len() implies fmod(
            #[trigger] s.drop_first()[i].val() as int,
        ) == fmod(c * t[i].val()) by {
            broadcast use lemma_from_val;

            assert(s.drop_first()[i] == s[i + 1]);
            lemma_pow_adds(c, 1, i as nat);
            reveal(pow);
            assert(pow(c, 1) == c * pow(c, 0));
            assert(a[i + 1] == a1[i]);
            let ai = a1[i].val() as int;
            lemma_mod_twice(ai * pow(c, (i + 1) as nat), m);
            lemma_mul_mod_noop_general(c, ai * pow(c, i as nat), m);
            lemma_mod_twice(c, m);
            assert(ai * (c * pow(c, i as nat)) == c * (ai * pow(c, i as nat))) by (nonlinear_arith);
            assert(fmod(s[i + 1].val() as int) == fmod(ai * pow(c, (i + 1) as nat)));
            lemma_mul_mod_noop_general(c, fmod(ai * pow(c, i as nat)), m);
            lemma_mul_mod_noop_general(c, ai * pow(c, i as nat), m);
        }
        lemma_poly_eval_scalar(s.drop_first(), t, c, x);
        let es = poly_eval(s.drop_first(), x);
        let et = poly_eval(t, x);
        let ea = poly_eval(a1, c * x);
        assert(fmod(et) == fmod(ea));
        assert(fmod(es) == fmod(c * et));
        lemma_mul_mod_noop_general(c, et, m);
        lemma_mul_mod_noop_general(c, ea, m);
        assert(fmod(es) == fmod(c * ea));
        lemma_mul_mod_noop_general(x, es, m);
        lemma_mul_mod_noop_general(x, c * ea, m);
        broadcast use lemma_from_val;

        lemma_pow0(c);
        let a0 = a[0].val() as int;
        lemma_mod_bound(a0 * 1, m);
        assert(s[0].val() == fmod(a0 * 1));
        lemma_mod_twice(a0, m);
        lemma_add_mod_noop(s[0].val() as int, x * es, m);
        lemma_add_mod_noop(a0, x * (c * ea), m);
        assert(x * (c * ea) == (c * x) * ea) by (nonlinear_arith);
    }
}

/// Inverse FFT on `<ω>`: `(1/n) · fft(evals, ω^(-1))`.
pub fn ifft_subgroup(evals: &[Fp], omega: Fp) -> (r: Vec<Fp>)
    requires
        is_pow2(evals@.len()),
        is_primitive_root(omega.val() as int, evals@.len()),
        omega.val() != 0,
    ensures
        r@ == ifft_values(evals@, omega.val() as int),
{
    let n = evals.len();
    proof {
        lemma_pow2_not_multiple(n as nat);
        lemma_inverse_root_primitive(omega.val() as int, n as nat);
    }
    let n_fp = Fp::new(n as u64);
    let n_inv = match n_fp.inverse() {
        Some(x) => x,
        None => Fp::zero(),
    };
    let omega_inv = match omega.inverse() {
        Some(x) => x,
        None => Fp::zero(),
    };
    proof {
        lemma_pow_mod_noop(n as int, (MODULUS - 2) as nat, MODULUS as int);
    }
    let evals_fft = fft_subgroup(evals, omega_inv);
    let mut out: Vec<Fp> = Vec::with_capacity(n);
    for j in 0..n
        invariant
            n == evals@.len(),
            evals_fft@ == fft_values(evals@, omega_inv.val() as int),
            omega_inv.val() == inv_val(omega.val() as int),
            n_inv.val() == inv_val(n as int),
            out@.len() == j,
            forall|i: int| 0 <= i < j ==> #[trigger] out@[i] == ifft_values(evals@, omega.val() as int)[i],
    {
        let x = evals_fft[j] * n_inv;
        proof {
            broadcast use lemma_from_val;
            broadcast use lemma_val_eq;

            let m = MODULUS as int;
            let v = poly_eval(evals@, pow(inv_val(omega.val() as int), j as nat));
            lemma_mul_mod_noop_general(v, inv_val(n as int), m);
            lemma_mod_twice(inv_val(n as int), m);
            assert(v * inv_val(n as int) == inv_val(n as int) * v) by (nonlinear_arith);
        }
        out.push(x);
    }
    proof {
        assert(out@ =~= ifft_values(evals@, omega.val() as int));
    }
    out
}

/// The evaluations of the coefficients `c` on the points of `d`.
pub open spec fn domain_values(c: Seq<Fp>, d: EvaluationDomain) -> Seq<Fp> {
    Seq::new(c.len(), |j: int| Fp::from_val(fmod(poly_eval(c, d.point(j))) as nat))
}

/// What [`ifft_on_domain`] returns: the subgroup inverse transform,
/// un-scaled by the powers of `c^(-1)`.
pub open spec fn ifft_domain_values(e: Seq<Fp>, d: EvaluationDomain) -> Seq<Fp> {
    Seq::new(
        e.len(),
        |i: int|
            Fp::from_val(
                fmod(
                    ifft_values(e, d.spec_generator().val() as int)[i].val() * pow(
                        inv_val(d.spec_offset().val() as int),
                        i as nat,
                    ),
                ) as nat,
            ),
    )
}

/// The generator of a domain is a primitive root of the domain's size.
pub proof fn lemma_domain_root(d: EvaluationDomain)
    requires
        d.wf(),
    ensures
        is_pow2(d.spec_size()),
        is_primitive_root(d.spec_generator().val() as int, d.spec_size()),
        d.spec_generator().val() != 0,
{
    lemma_domain_wf(d);
    lemma_pow2_is_pow2(d.spec_log_size());
    if d.spec_log_size() >= 1 {
        lemma_pow2_adds((d.spec_log_size() - 1) as nat, 1);
        vstd::arithmetic::power2::lemma2_to64();
        assert(d.spec_size() / 2 == pow2((d.spec_log_size() - 1) as nat));
    } else {
        vstd::arithmetic::power2::lemma2_to64();
    }
    if d.spec_generator().val() == 0 {
        lemma0_pow(d.spec_size());
        lemma_pow2_pos(d.spec_log_size());
    }
}

/// Forward FFT on a (possibly proper) coset domain:
/// returns `[p(c), p(c·ω), ..., p(c·ω^(n-1))]`.
pub fn fft_on_domain(coeffs: &[Fp], domain: &EvaluationDomain) -> (r: Vec<Fp>)
    requires
        coeffs@.len() == domain.spec_size(),
    ensures
        r@ == domain_values(coeffs@, *domain),
{
    proof {
        use_type_invariant(domain);
        lemma_domain_root(*domain);
        lemma_domain_wf(*domain);
    }
    let n = coeffs.len();
    let offset = domain.offset();
    let ghost w = domain.spec_generator().val() as int;
    let ghost c = offset.val() as int;
    let scaled: Vec<Fp> = if offset == Fp::one() {
        let mut v: Vec<Fp> = Vec::with_capacity(n);
        for i in 0..n
            invariant
                n == coeffs@.len(),
                v@.len() == i,
                forall|j: int| 0 <= j < i ==> #[trigger] v@[j] == coeffs@[j],
        {
            v.push(coeffs[i]);
        }
        proof {
            assert(v@ =~= coeffs@);
        }
        v
    } else {
        let mut v: Vec<Fp> = Vec::with_capacity(n);
        let mut pow_c = Fp::one();
        proof {
            lemma_pow0(c);
            lemma_small_mod(1, MODULUS as nat);
        }
        for i in 0..n
            invariant
                n == coeffs@.len(),
                c == offset.val(),
                c < MODULUS,
                v@.len() == i,
                pow_c.val() == fmod(pow(c, i as nat)),
                forall|j: int| 0 <= j < i ==> #[trigger] v@[j] == scale_by_powers(coeffs@, c)[j],
        {
            let a = coeffs[i];
            proof {
                broadcast use lemma_from_val;
                broadcast use lemma_val_eq;

                let m = MODULUS as int;
                lemma_mul_mod_noop_general(a.val() as int, pow(c, i as nat), m);
                lemma_mod_twice(a.val() as int, m);
                lemma_pow_adds(c, i as nat, 1);
                reveal(pow);
                assert(pow(c, 1) == c * pow(c, 0));
                lemma_mul_mod_noop_general(pow(c, i as nat), c, m);
                lemma_small_mod(c as nat, MODULUS as nat);
                use_type_invariant(&a);
                crate::field::lemma_canonical(a);
                lemma_small_mod(a.val(), MODULUS as nat);
            }
            v.push(a * pow_c);
            pow_c = pow_c * offset;
        }
        proof {
            assert(v@ =~= scale_by_powers(coeffs@, c));
        }
        v
    };
    let r = fft_subgroup(scaled.as_slice(), domain.generator());
    proof {
        broadcast use lemma_from_val;
        broadcast use lemma_val_eq;

        assert forall|j: int| 0 <= j < n implies #[trigger] r@[j] == domain_values(coeffs@, *domain)[j] by {
            let x = pow(w, j as nat);
            let m = MODULUS as int;
            lemma_mul_mod_noop_general(c, x, m);
            lemma_small_mod(c as nat, MODULUS as nat);
            lemma_mod_twice(c * x, m);
            if c == 1 {
                assert(fmod(x) == fmod(domain.point(j)));
                lemma_poly_eval_congruent(coeffs@, x, domain.point(j));
            } else {
                lemma_poly_eval_scaled(coeffs@, c, x);
                lemma_poly_eval_congruent(coeffs@, c * x, domain.point(j));
            }
        }
        assert(r@ =~= domain_values(coeffs@, *domain));
    }
    r
}

/// Inverse FFT on a coset domain: recovers `[a_0, ..., a_(n-1)]` from
/// `[p(c), p(c·ω), ..., p(c·ω^(n-1))]`.
pub fn ifft_on_domain(evals: &[Fp], domain: &EvaluationDomain) -> (r: Vec<Fp>)
    requires
        evals@.len() == domain.spec_size(),
    ensures
        r@ == ifft_domain_values(evals@, *domain),
{
    proof {
        use_type_invariant(domain);
        lemma_domain_root(*domain);
        lemma_domain_wf(*domain);
    }
    let n = evals.len();
    let sub = ifft_subgroup(evals, domain.generator());
    let offset = domain.offset();
    let ghost w = domain.spec_generator().val() as int;
    let ghost ci = inv_val(offset.val() as int);
    if offset == Fp::one() {
        proof {
            broadcast use lemma_from_val;
            broadcast use lemma_val_eq;

            reveal(pow);
            lemma1_pow((MODULUS - 2) as nat);
            lemma_small_mod(1, MODULUS as nat);
            assert forall|i: int| 0 <= i < n implies #[trigger] sub@[i] == ifft_domain_values(
                evals@,
                *domain,
            )[i] by {
                lemma1_pow(i as nat);
                let v = ifft_values(evals@, w)[i].val();
                lemma_mod_bound(
                    inv_val(n as int) * poly_eval(evals@, pow(inv_val(w), i as nat)),
                    MODULUS as int,
                );
                lemma_small_mod(v, MODULUS as nat);
            }
            assert(sub@ =~= ifft_domain_values(evals@, *domain));
        }
        return sub;
    }
    let c_inv = match offset.inverse() {
        Some(x) => x,
        None => Fp::zero(),
    };
    let mut out: Vec<Fp> = Vec::with_capacity(n);
    let mut pow_c_inv = Fp::one();
    proof {
        lemma_pow0(ci);
        lemma_small_mod(1, MODULUS as nat);
        use_type_invariant(&c_inv);
        crate::field::lemma_canonical(c_inv);
    }
    for i in 0..n
        invariant
            n == evals@.len(),
            sub@ == ifft_values(evals@, w),
            c_inv.val() == ci,
            ci == inv_val(domain.spec_offset().val() as int),
            w == domain.spec_generator().val(),
            ci < MODULUS,
            out@.len() == i,
            pow_c_inv.val() == fmod(pow(ci, i as nat)),
            forall|j: int| 0 <= j < i ==> #[trigger] out@[j] == ifft_domain_values(evals@, *domain)[j],
    {
        let e = sub[i];
        proof {
            broadcast use lemma_from_val;
            broadcast use lemma_val_eq;

            let m = MODULUS as int;
            lemma_mul_mod_noop_general(e.val() as int, pow(ci, i as nat), m);
            lemma_mod_twice(e.val() as int, m);
            lemma_pow_adds(ci, i as nat, 1);
            reveal(pow);
            assert(pow(ci, 1) == ci * pow(ci, 0));
            lemma_mul_mod_noop_general(pow(ci, i as nat), ci, m);
            lemma_small_mod(ci as nat, MODULUS as nat);
            use_type_invariant(&e);
            crate::field::lemma_canonical(e);
            lemma_small_mod(e.val(), MODULUS as nat);
        }
        out.push(e * pow_c_inv);
        pow_c_inv = pow_c_inv * c_inv;
    }
    proof {
        assert(out@ =~= ifft_domain_values(evals@, *domain));
    }
    out
}

} // verus!
