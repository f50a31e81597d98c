//! The inverse transform undoes the forward one: orthogonality of the
//! powers of a primitive root of unity, and the round trip
//! `ifft(fft(a)) = a` on the subgroup `<w>`.
use crate::fft::{domain_values, fft_values, ifft_domain_values, ifft_values, scale_by_powers, inv_val, is_pow2, is_primitive_root, lemma_neg_one_odd_pow, lemma_root_full_power, lemma_square_root_primitive};
use crate::decode::interpolated;
use crate::domain::EvaluationDomain;
use crate::encode::{codeword, zero_pad};
use crate::field::{fmod, lemma_from_val, lemma_val_eq, Fp, MODULUS, MULTIPLICATIVE_GENERATOR};
use crate::polynomial::{coef, poly_eval, strip};
use crate::sums::{lemma_poly_eval_as_sum, lemma_sum_add, lemma_sum_congruent, lemma_sum_scale, lemma_sum_swap, lemma_sum_zero, poly_terms, sum};
use vstd::arithmetic::div_mod::{lemma_add_mod_noop, lemma_mul_mod_noop_general, lemma_small_mod};
use vstd::arithmetic::power::{lemma1_pow, lemma_pow_adds, lemma_pow_mod_noop, lemma_pow_multiplies, pow};
use vstd::arithmetic::power2::pow2;
use vstd::prelude::*;

verus! {

/// A sum over `h + k` terms splits into the first `h` and the next `k`.
pub proof fn lemma_sum_split(f: spec_fn(int) -> int, h: int, k: int)
    requires
        0 <= h,
        0 <= k,
    ensures
        sum(f, h + k) == sum(f, h) + sum(|l: int| f(l + h), k),
    decreases k,
{
    if k > 0 {
        lemma_sum_split(f, h, k - 1);
        let g = |l: int| f(l + h);
        assert(sum(g, k) == sum(g, k - 1) + g(k - 1));
        assert(sum(f, h + k) == sum(f, h + k - 1) + f(h + k - 1));
    }
}

/// A sum of terms that are all `0` modulo `p` is `0` modulo `p`.
proof fn lemma_sum_all_zero_mod(f: spec_fn(int) -> int, n: int)
    requires
        n >= 0,
        forall|l: int| 0 <= l < n ==> fmod(#[trigger] f(l)) == 0,
    ensures
        fmod(sum(f, n)) == 0,
{
    let z = |l: int| 0int;
    assert forall|l: int| 0 <= l < n implies fmod(#[trigger] f(l)) == fmod(z(l)) by {
        lemma_small_mod(0, MODULUS as nat);
    }
    lemma_sum_congruent(f, z, n);
    lemma_sum_zero(z, n);
    lemma_small_mod(0, MODULUS as nat);
}

/// Orthogonality: for a primitive `n`-th root `w` and `0 < d < n`, the
/// powers `w^(l d)` for `l < n` sum to `0` modulo `p`.
pub proof fn lemma_roots_sum_zero(w: int, n: nat, d: nat)
    requires
        n >= 2,
        is_pow2(n),
        is_primitive_root(w, n),
        0 < d < n,
    ensures
        fmod(sum(|l: int| pow(w, (l * d) as nat), n as int)) == 0,
    decreases n,
{
    let m = MODULUS as int;
    let h = n / 2;
    assert(n == h + h);
    let f = |l: int| pow(w, (l * d) as nat);
    let g = |l: int| f(l + h);
    lemma_sum_split(f, h as int, h as int);
    if d % 2 == 1 {
        let s = |l: int| f(l) + g(l);
        lemma_sum_add(f, g, s, h as int);
        assert forall|l: int| 0 <= l < h implies fmod(#[trigger] s(l)) == 0 by {
            let a = (l * d) as nat;
            let b = (h * d) as nat;
            assert((l + h) * d == l * d + h * d) by (nonlinear_arith);
            assert(l * d >= 0) by (nonlinear_arith)
                requires
                    l >= 0,
            ;
            lemma_pow_adds(w, a, b);
            lemma_pow_multiplies(w, h, d);
            lemma_pow_mod_noop(pow(w, h), d, m);
            lemma_pow_mod_noop(-1, d, m);
            assert(fmod(-1) == m - 1);
            lemma_neg_one_odd_pow(((d - 1) / 2) as nat);
            assert(2 * ((d - 1) / 2) as nat + 1 == d);
            assert(fmod(pow(w, b)) == m - 1);
            lemma_mul_mod_noop_general(pow(w, a), pow(w, b), m);
            lemma_mul_mod_noop_general(pow(w, a), -1, m);
            assert(g(l) == pow(w, a) * pow(w, b));
            assert(fmod(g(l)) == fmod(-pow(w, a)));
            lemma_add_mod_noop(f(l), g(l), m);
            lemma_add_mod_noop(pow(w, a), -pow(w, a), m);
            lemma_small_mod(0, MODULUS as nat);
        }
        lemma_sum_all_zero_mod(s, h as int);
    } else {
        let e = d / 2;
        assert(d == 2 * e);
        assert(h >= 2);
        let w2 = fmod(w * w);
        lemma_square_root_primitive(w, n);
        let f2 = |l: int| pow(w2, (l * e) as nat);
        assert forall|l: int| 0 <= l < n implies fmod(#[trigger] f(l)) == fmod(f2(l)) by {
            let le = (l * e) as nat;
            assert(l * e >= 0) by (nonlinear_arith)
                requires
                    l >= 0,
            ;
            assert(l * d == 2 * (l * e)) by (nonlinear_arith)
                requires
                    d == 2 * e,
            ;
            lemma_pow_multiplies(w, 2, le);
            reveal(pow);
            assert(pow(w, 2) == w * pow(w, 1));
            assert(pow(w, 1) == w * pow(w, 0));
            lemma_pow_mod_noop(w * w, le, m);
        }
        lemma_sum_congruent(f, f2, n as int);
        let g2 = |l: int| f2(l + h);
        lemma_sum_split(f2, h as int, h as int);
        assert(is_pow2(h));
        assert(h % 2 == 0);
        lemma_root_full_power(w2, h);
        assert forall|l: int| 0 <= l < h implies fmod(#[trigger] g2(l)) == fmod(f2(l)) by {
            let a = (l * e) as nat;
            let b = (h * e) as nat;
            assert((l + h) * e == l * e + h * e) by (nonlinear_arith);
            assert(l * e >= 0) by (nonlinear_arith)
                requires
                    l >= 0,
            ;
            lemma_pow_adds(w2, a, b);
            lemma_pow_multiplies(w2, h, e);
            lemma_pow_mod_noop(pow(w2, h), e, m);
            lemma1_pow(e);
            lemma_small_mod(1, MODULUS as nat);
            lemma_mul_mod_noop_general(pow(w2, a), pow(w2, b), m);
            assert(pow(w2, a) * 1 == pow(w2, a));
        }
        lemma_sum_congruent(g2, f2, h as int);
        lemma_roots_sum_zero(w2, h, e);
        lemma_add_mod_noop(sum(f2, h as int), sum(g2, h as int), m);
        lemma_small_mod(0, MODULUS as nat);
    }
}

/// `p - 1 = 2^32 (2^32 - 1)` is a multiple of `2^a` for `a <= 32`.
proof fn lemma_pow2_divides_group_order(a: nat)
    requires
        a <= 32,
    ensures
        (MODULUS - 1) as int % (pow2(a) as int) == 0,
        pow2(a) >= 1,
{
    crate::field::lemma_group_order_div(a);
    vstd::arithmetic::power2::lemma_pow2_pos(a);
    let q = crate::field::group_order() / pow2(a);
    assert(crate::field::group_order() == (MODULUS - 1) as nat);
    vstd::arithmetic::div_mod::lemma_mod_multiples_basic(q as int, pow2(a) as int);
    assert(q * pow2(a) == (MODULUS - 1) as int);
}

/// For a root `w` with `w^n = 1`, `n = 2^a <= 2^32`, the inverse `w^(p-2)`
/// is `w^(n-1)` modulo `p`.
pub proof fn lemma_inv_root(w: int, a: nat)
    requires
        a <= 32,
        pow(w, pow2(a)) % (MODULUS as int) == 1,
    ensures
        inv_val(w) == pow(w, (pow2(a) - 1) as nat) % (MODULUS as int),
{
    let n = pow2(a);
    let m = MODULUS as int;
    lemma_pow2_divides_group_order(a);
    let q = ((MODULUS - 1) as int) / (n as int);
    vstd::arithmetic::div_mod::lemma_fundamental_div_mod((MODULUS - 1) as int, n as int);
    assert((MODULUS - 1) as int == n * q);
    assert(q >= 1) by (nonlinear_arith)
        requires
            (MODULUS - 1) as int == n * q,
            n >= 1,
    ;
    assert((MODULUS - 2) as int == (q - 1) * n + (n - 1)) by (nonlinear_arith)
        requires
            (MODULUS - 1) as int == n * q,
    ;
    assert(0 <= (q - 1) * n) by (nonlinear_arith)
        requires
            q >= 1,
            n >= 1,
    ;
    vstd::arithmetic::div_mod::lemma_fundamental_div_mod_converse((MODULUS - 2) as int, n as int, q - 1, (n - 1) as int);
    crate::domain::lemma_pow_wraps(w, n, (MODULUS - 2) as nat);
}

/// `2^(p-1) = 1` modulo `p`, from `2^96 = -1`.
proof fn lemma_two_order()
    ensures
        pow(2, (MODULUS - 1) as nat) % (MODULUS as int) == 1,
{
    let m = MODULUS as int;
    vstd::arithmetic::power2::lemma2_to64();
    vstd::arithmetic::power2::lemma_pow2_adds(64, 32);
    vstd::arithmetic::power2::lemma_pow2(96);
    assert(pow2(96) == 79228162514264337593543950336);
    assert(79228162514264337593543950336int % 18446744069414584321int == 18446744069414584320int);
    assert(pow(2, 96) % m == m - 1);
    lemma_pow_adds(2, 96, 96);
    lemma_mul_mod_noop_general(pow(2, 96), pow(2, 96), m);
    assert(((m - 1) * (m - 1)) % m == 1) by (nonlinear_arith)
        requires
            m == MODULUS as int,
    ;
    assert(pow(2, 192) % m == 1);
    let q: nat = 96076792028200960;
    assert((MODULUS - 1) as nat == 192 * q);
    lemma_pow_multiplies(2, 192, q);
    lemma_pow_mod_noop(pow(2, 192), q, m);
    lemma1_pow(q);
    lemma_small_mod(1, MODULUS as nat);
}

/// `n = 2^a` is inverted by `n^(p-2)`: `n * n^(p-2) = 1` modulo `p`.
pub proof fn lemma_inv_pow2(a: nat)
    ensures
        fmod(inv_val(pow2(a) as int) * pow2(a)) == 1,
{
    let m = MODULUS as int;
    let n = pow2(a) as int;
    let e = (MODULUS - 2) as nat;
    lemma_two_order();
    vstd::arithmetic::power2::lemma_pow2(a);
    lemma_mul_mod_noop_general(pow(n, e), n, m);
    vstd::arithmetic::div_mod::lemma_mod_twice(pow(n, e), m);
    lemma_pow_adds(n, e, 1);
    reveal(pow);
    assert(pow(n, 1) == n * pow(n, 0));
    assert(e + 1 == (MODULUS - 1) as nat);
    lemma_pow_multiplies(2, a, (MODULUS - 1) as nat);
    lemma_pow_multiplies(2, (MODULUS - 1) as nat, a);
    assert(a * (MODULUS - 1) as nat == (MODULUS - 1) as nat * a) by (nonlinear_arith);
    lemma_pow_mod_noop(pow(2, (MODULUS - 1) as nat), a, m);
    lemma1_pow(a);
    lemma_small_mod(1, MODULUS as nat);
    lemma_mul_mod_noop_general(pow(n, e) % m, n, m);
}

/// A sum whose terms are all `0` modulo `p` except the `j`-th is the `j`-th term modulo `p`.
proof fn lemma_sum_single(f: spec_fn(int) -> int, n: int, j: int)
    requires
        0 <= j < n,
        forall|i: int| 0 <= i < n && i != j ==> fmod(#[trigger] f(i)) == 0,
    ensures
        fmod(sum(f, n)) == fmod(f(j)),
    decreases n,
{
    let m = MODULUS as int;
    if n - 1 == j {
        lemma_sum_all_zero_mod(f, n - 1);
        lemma_add_mod_noop(sum(f, n - 1), f(n - 1), m);
        lemma_small_mod(0, MODULUS as nat);
        vstd::arithmetic::div_mod::lemma_mod_twice(f(j), m);
    } else {
        lemma_sum_single(f, n - 1, j);
        lemma_add_mod_noop(sum(f, n - 1), f(n - 1), m);
        vstd::arithmetic::div_mod::lemma_mod_twice(f(j), m);
    }
}

/// The exponent `m + (n-1) j` is `0` modulo `n` exactly when `m = j` (for `m, j < n`).
proof fn lemma_shift_exponent(n: nat, j: nat, m: nat)
    requires
        n >= 1,
        j < n,
        m < n,
    ensures
        ((m + (n - 1) * j) % (n as int) == 0) <==> (m == j),
{
    let x = m + (n - 1) * j;
    assert(x == (m - j) + n * j) by (nonlinear_arith)
        requires
            x == m + (n - 1) * j,
    ;
    vstd::arithmetic::div_mod::lemma_mod_multiples_vanish(j as int, (m - j) as int, n as int);
    assert((n * j + (m - j)) % (n as int) == (m - j) % (n as int));
    if m >= j {
        lemma_small_mod((m - j) as nat, n);
    } else {
        vstd::arithmetic::div_mod::lemma_fundamental_div_mod_converse((m - j) as int, n as int, -1, (m - j + n) as int);
    }
}

/// One term of the round trip: `(w^l)^m * (w^(-1))^(j l)` is `w^(l d)` with `d = (m + (n-1) j) mod n`.
proof fn lemma_round_trip_term(w: int, a: nat, j: nat, m: nat, l: nat)
    requires
        a <= 32,
        pow(w, pow2(a)) % (MODULUS as int) == 1,
    ensures
        fmod(pow(pow(w, l), m) * pow(pow(inv_val(w), j), l)) == fmod(
            pow(w, l * ((m + (pow2(a) - 1) * j) % (pow2(a) as int)) as nat),
        ),
{
    let n = pow2(a);
    let md = MODULUS as int;
    vstd::arithmetic::power2::lemma_pow2_pos(a);
    lemma_inv_root(w, a);
    let u = inv_val(w);
    let x = (m + (n - 1) * j) as nat;
    let dm = (x % n) as nat;
    lemma_pow_multiplies(w, l, m);
    lemma_pow_multiplies(u, j, l);
    lemma_pow_mod_noop(pow(w, (n - 1) as nat), j * l, md);
    lemma_pow_multiplies(w, (n - 1) as nat, j * l);
    assert(u == pow(w, (n - 1) as nat) % md);
    lemma_mul_mod_noop_general(pow(w, l * m), pow(u, j * l), md);
    lemma_mul_mod_noop_general(pow(w, l * m), pow(w, ((n - 1) * (j * l)) as nat), md);
    assert(l * m + (n - 1) * (j * l) == l * x) by (nonlinear_arith)
        requires
            x == m + (n - 1) * j,
    ;
    lemma_pow_adds(w, l * m, ((n - 1) * (j * l)) as nat);
    crate::domain::lemma_pow_wraps(w, n, l * x);
    crate::domain::lemma_pow_wraps(w, n, l * dm);
    vstd::arithmetic::div_mod::lemma_mul_mod_noop_right(l as int, x as int, n as int);
}

/// `1 + 1 + ... + 1` (`n` terms) is `n`.
proof fn lemma_sum_ones(f: spec_fn(int) -> int, n: int)
    requires
        n >= 0,
        forall|l: int| 0 <= l < n ==> #[trigger] f(l) == 1,
    ensures
        sum(f, n) == n,
    decreases n,
{
    if n > 0 {
        lemma_sum_ones(f, n - 1);
    }
}

/// The inner sum of the round trip: `sum_l (w^l)^m (w^(-1))^(j l)` is `n`
/// modulo `p` when `m = j` and `0` otherwise.
proof fn lemma_round_trip_inner(w: int, a: nat, j: nat, m: nat)
    requires
        1 <= a <= 32,
        is_primitive_root(w, pow2(a)),
        j < pow2(a),
        m < pow2(a),
    ensures
        fmod(sum(|l: int| pow(pow(w, l as nat), m) * pow(pow(inv_val(w), j), l as nat), pow2(a) as int)) == if m == j {
            fmod(pow2(a) as int)
        } else {
            0
        },
{
    let n = pow2(a);
    let md = MODULUS as int;
    crate::fft::lemma_pow2_is_pow2(a);
    vstd::arithmetic::power2::lemma_pow2_adds((a - 1) as nat, 1);
    vstd::arithmetic::power2::lemma2_to64();
    vstd::arithmetic::power2::lemma_pow2_pos((a - 1) as nat);
    assert(n == pow2((a - 1) as nat) * 2);
    assert(n >= 2 && n % 2 == 0);
    lemma_root_full_power(w, n);
    let d = ((m + (n - 1) * j) % (n as int)) as nat;
    let inner = |l: int| pow(pow(w, l as nat), m) * pow(pow(inv_val(w), j), l as nat);
    let h = |l: int| pow(w, (l * d) as nat);
    assert forall|l: int| 0 <= l < n implies fmod(#[trigger] inner(l)) == fmod(h(l)) by {
        lemma_round_trip_term(w, a, j, m, l as nat);
        assert(l as nat * d == (l * d) as nat);
    }
    lemma_sum_congruent(inner, h, n as int);
    lemma_shift_exponent(n, j, m);
    if m == j {
        assert forall|l: int| 0 <= l < n implies #[trigger] h(l) == 1 by {
            assert(l * d == 0) by (nonlinear_arith)
                requires
                    d == 0,
            ;
            reveal(pow);
        }
        lemma_sum_ones(h, n as int);
    } else {
        lemma_roots_sum_zero(w, n, d);
    }
}

/// One entry of the round trip: `ifft(fft(c))[j] = c[j]`.
proof fn lemma_round_trip_entry(c: Seq<Fp>, w: int, a: nat, j: nat)
    requires
        1 <= a <= 32,
        c.len() == pow2(a),
        is_primitive_root(w, pow2(a)),
        forall|i: int| 0 <= i < c.len() ==> (#[trigger] c[i]).val() < MODULUS,
        j < pow2(a),
    ensures
        ifft_values(fft_values(c, w), w)[j as int].val() == c[j as int].val(),
{
    let n = pow2(a);
    let ni = n as int;
    let md = MODULUS as int;
    let e = fft_values(c, w);
    let u = inv_val(w);
    let y = pow(u, j);
    let big_f = |l: int, mm: int| coef(c, mm) * (pow(pow(w, l as nat), mm as nat) * pow(y, l as nat));
    let row = |l: int| sum(|mm: int| big_f(l, mm), ni);
    let col = |mm: int| sum(|l: int| big_f(l, mm), ni);
    let t = poly_eval(e, y);
    lemma_poly_eval_as_sum(e, y);
    assert forall|l: int| 0 <= l < ni implies fmod(#[trigger] poly_terms(e, y)(l)) == fmod(row(l)) by {
        let x = pow(w, l as nat);
        let pl = poly_eval(c, x);
        lemma_poly_eval_as_sum(c, x);
        let yl = pow(y, l as nat);
        assert forall|mm: int| 0 <= mm < ni implies #[trigger] big_f(l, mm) == yl * poly_terms(c, x)(mm) by {
            let cm = coef(c, mm);
            let pm = pow(x, mm as nat);
            assert(cm * (pm * yl) == yl * (cm * pm)) by (nonlinear_arith);
        }
        lemma_sum_scale(poly_terms(c, x), |mm: int| big_f(l, mm), yl, ni);
        lemma_from_val(fmod(pl) as nat);
        assert(coef(e, l) == fmod(pl));
        lemma_mul_mod_noop_general(pl, yl, md);
        vstd::arithmetic::div_mod::lemma_mod_twice(pl, md);
        assert(pl * yl == yl * pl) by (nonlinear_arith);
    }
    lemma_sum_congruent(poly_terms(e, y), row, ni);
    lemma_sum_swap(big_f, ni, ni);
    assert forall|mm: int| 0 <= mm < ni && mm != j implies fmod(#[trigger] col(mm)) == 0 by {
        let inner = |l: int| pow(pow(w, l as nat), mm as nat) * pow(pow(inv_val(w), j), l as nat);
        lemma_round_trip_inner(w, a, j, mm as nat);
        lemma_sum_scale(inner, |l: int| big_f(l, mm), coef(c, mm), ni);
        lemma_mul_mod_noop_general(coef(c, mm), sum(inner, ni), md);
        lemma_small_mod(0, MODULUS as nat);
    }
    lemma_sum_single(col, ni, j as int);
    let cj = c[j as int].val() as int;
    assert(fmod(col(j as int)) == fmod(cj * ni)) by {
        let inner = |l: int| pow(pow(w, l as nat), j) * pow(pow(inv_val(w), j), l as nat);
        lemma_round_trip_inner(w, a, j, j);
        lemma_sum_scale(inner, |l: int| big_f(l, j as int), coef(c, j as int), ni);
        lemma_mul_mod_noop_general(cj, sum(inner, ni), md);
        lemma_mul_mod_noop_general(cj, ni, md);
    }
    let iv = inv_val(ni);
    lemma_inv_pow2(a);
    lemma_mul_mod_noop_general(iv, t, md);
    lemma_mul_mod_noop_general(iv, cj * ni, md);
    assert(iv * (cj * ni) == cj * (iv * ni)) by (nonlinear_arith);
    lemma_mul_mod_noop_general(cj, iv * ni, md);
    lemma_small_mod(cj as nat, MODULUS as nat);
    lemma_from_val(fmod(iv * t) as nat);
}

/// The inverse transform undoes the forward one on the subgroup `<w>` of
/// size `n = 2^a <= 2^32`: `ifft(fft(c, w), w) = c`.
pub proof fn lemma_fft_round_trip(c: Seq<Fp>, w: int, a: nat)
    requires
        a <= 32,
        c.len() == pow2(a),
        is_primitive_root(w, pow2(a)),
        forall|i: int| 0 <= i < c.len() ==> (#[trigger] c[i]).val() < MODULUS,
    ensures
        ifft_values(fft_values(c, w), w) == c,
{
    let r = ifft_values(fft_values(c, w), w);
    if a == 0 {
        vstd::arithmetic::power2::lemma2_to64();
        let e = fft_values(c, w);
        let c0 = c[0].val() as int;
        reveal(pow);
        assert(poly_eval(c, 1) == c0 + 1 * poly_eval(c.drop_first(), 1));
        assert(poly_eval(c.drop_first(), 1) == 0);
        lemma_small_mod(c0 as nat, MODULUS as nat);
        lemma_from_val(c0 as nat);
        assert(e[0].val() == c0);
        assert(poly_eval(e, 1) == e[0].val() + 1 * poly_eval(e.drop_first(), 1));
        assert(poly_eval(e.drop_first(), 1) == 0);
        vstd::arithmetic::power::lemma1_pow((MODULUS - 2) as nat);
        lemma_small_mod(1, MODULUS as nat);
        assert(inv_val(1) == 1);
        lemma_val_eq(r[0], c[0]);
        assert(r =~= c);
    } else {
        assert forall|j: int| 0 <= j < c.len() implies #[trigger] r[j] == c[j] by {
            lemma_round_trip_entry(c, w, a, j as nat);
            lemma_val_eq(r[j], c[j]);
        }
        assert(r =~= c);
    }
}

/// The forward transform undoes the inverse one on the subgroup `<w>` of
/// size `n = 2^a <= 2^32`: `fft(ifft(e, w), w) = e`.
pub proof fn lemma_fft_after_ifft(e: Seq<Fp>, w: int, a: nat)
    requires
        a <= 32,
        e.len() == pow2(a),
        is_primitive_root(w, pow2(a)),
        forall|i: int| 0 <= i < e.len() ==> (#[trigger] e[i]).val() < MODULUS,
    ensures
        fft_values(ifft_values(e, w), w) == e,
{
    let md = MODULUS as int;
    let n = pow2(a);
    let g = ifft_values(e, w);
    let r = fft_values(g, w);
    if a == 0 {
        vstd::arithmetic::power2::lemma2_to64();
        reveal(pow);
        let e0 = e[0].val() as int;
        vstd::arithmetic::power::lemma1_pow((MODULUS - 2) as nat);
        lemma_small_mod(1, MODULUS as nat);
        assert(inv_val(1) == 1);
        assert(pow(inv_val(w), 0) == 1);
        assert(poly_eval(e, 1) == e0 + 1 * poly_eval(e.drop_first(), 1));
        assert(poly_eval(e.drop_first(), 1) == 0);
        lemma_small_mod(e0 as nat, MODULUS as nat);
        lemma_from_val(e0 as nat);
        assert(g[0].val() == e0);
        assert(poly_eval(g, 1) == g[0].val() + 1 * poly_eval(g.drop_first(), 1));
        assert(poly_eval(g.drop_first(), 1) == 0);
        lemma_val_eq(r[0], e[0]);
        assert(r =~= e);
    } else {
        let u = inv_val(w);
        crate::fft::lemma_inverse_root_primitive(w, n);
        crate::fft::lemma_pow2_is_pow2(a);
        vstd::arithmetic::power2::lemma_pow2_pos(a);
        vstd::arithmetic::power2::lemma2_to64();
        vstd::arithmetic::power2::lemma_pow2_adds((a - 1) as nat, 1);
        vstd::arithmetic::power2::lemma_pow2_pos((a - 1) as nat);
        assert(n / 2 >= 1);
        // `w` is invertible, and the inverse of `u = w^(-1)` is `w` again.
        assert(fmod(w) != 0) by {
            if fmod(w) == 0 {
                crate::arith::lemma_pow_congruent(w, 0, n / 2, md);
                vstd::arithmetic::power::lemma0_pow(n / 2);
                lemma_small_mod(0, MODULUS as nat);
            }
        }
        crate::generator::lemma_inv_val_correct(w);
        assert(fmod(u) != 0) by {
            if fmod(u) == 0 {
                lemma_mul_mod_noop_general(w, u, md);
                lemma_small_mod(0, MODULUS as nat);
                assert(w * 0 == 0);
            }
        }
        crate::generator::lemma_inv_val_correct(u);
        assert(fmod(inv_val(u)) == fmod(w)) by {
            let iu = inv_val(u);
            crate::arith::lemma_mod_sub_congr(u * iu, 1, w * u, 1, md);
            assert(u * iu - w * u == u * (iu - w)) by (nonlinear_arith);
            lemma_small_mod(0, MODULUS as nat);
            assert(1 - 1 == 0);
            crate::generator::lemma_no_zero_divisors(u, iu - w);
            crate::arith::lemma_mod_add_congr(iu - w, 0, w, w, md);
        }
        let f = fft_values(e, u);
        lemma_fft_round_trip(e, u, a);
        let inv_n = inv_val(n as int);
        assert forall|j: int| 0 <= j < n implies #[trigger] r[j] == e[j] by {
            let x = pow(w, j as nat);
            let x2 = pow(inv_val(u), j as nat);
            crate::arith::lemma_pow_congruent(inv_val(u), w, j as nat, md);
            assert forall|i: int| 0 <= i < g.len() implies fmod(#[trigger] g[i].val() as int) == fmod(
                inv_n * f[i].val(),
            ) by {
                let ev = poly_eval(e, pow(u, i as nat));
                lemma_mod_bound_local(inv_n * ev);
                lemma_mod_bound_local(ev);
                lemma_from_val(fmod(inv_n * ev) as nat);
                lemma_from_val(fmod(ev) as nat);
                vstd::arithmetic::div_mod::lemma_mod_twice(inv_n * ev, md);
                lemma_mul_mod_noop_general(inv_n, ev, md);
                lemma_mul_mod_noop_general(inv_n, fmod(ev), md);
            }
            crate::fft::lemma_poly_eval_scalar(g, f, inv_n, x);
            crate::fft::lemma_poly_eval_congruent(f, x, x2);
            lemma_mul_mod_noop_general(inv_n, poly_eval(f, x), md);
            lemma_mul_mod_noop_general(inv_n, poly_eval(f, x2), md);
            assert(ifft_values(f, u)[j] == e[j]);
            lemma_mod_bound_local(poly_eval(g, x));
            lemma_from_val(fmod(poly_eval(g, x)) as nat);
            lemma_mod_bound_local(inv_n * poly_eval(f, x2));
            lemma_from_val(fmod(inv_n * poly_eval(f, x2)) as nat);
            lemma_val_eq(r[j], e[j]);
        }
        assert(r =~= e);
    }
}

/// `x mod p` lies in `[0, p)`.
proof fn lemma_mod_bound_local(x: int)
    ensures
        0 <= fmod(x) < MODULUS,
{
    vstd::arithmetic::div_mod::lemma_mod_bound(x, MODULUS as int);
}

/// Zero coefficients on top are stripped away.
pub proof fn lemma_strip_zero_pad(s: Seq<Fp>, k: nat)
    ensures
        strip(zero_pad(s, k)) == strip(s),
    decreases k,
{
    if k == 0 {
        assert(zero_pad(s, 0) =~= s);
    } else {
        let t = zero_pad(s, k);
        lemma_from_val(0);
        assert(t.drop_last() =~= zero_pad(s, (k - 1) as nat));
        assert(t.last().val() == 0);
        lemma_strip_zero_pad(s, (k - 1) as nat);
    }
}

/// A power of the generator `7` is inverted by `x^(p-2)`.
pub proof fn lemma_generator_power_invertible(e: nat)
    ensures
        ({
            let x = fmod(pow(MULTIPLICATIVE_GENERATOR as int, e));
            fmod(x * inv_val(x)) == 1
        }),
{
    let x = fmod(pow(MULTIPLICATIVE_GENERATOR as int, e));
    crate::stir_domain::lemma_generator_power_nonzero(e);
    vstd::arithmetic::div_mod::lemma_mod_twice(pow(MULTIPLICATIVE_GENERATOR as int, e), MODULUS as int);
    crate::generator::lemma_inv_val_correct(x);
}

/// The codeword of `msg` on a domain with offset `c` and generator `w` is
/// the forward transform of the coefficients `msg_i c^i`, padded to `|L|`.
proof fn lemma_codeword_as_transform(msg: Seq<Fp>, d: EvaluationDomain)
    requires
        d.wf(),
        msg.len() <= d.spec_size(),
    ensures
        codeword(msg, d) == fft_values(
            zero_pad(scale_by_powers(msg, d.spec_offset().val() as int), (d.spec_size() - msg.len()) as nat),
            d.spec_generator().val() as int,
        ),
{
    let c = d.spec_offset().val() as int;
    let w = d.spec_generator().val() as int;
    let a = zero_pad(scale_by_powers(msg, c), (d.spec_size() - msg.len()) as nat);
    let lhs = codeword(msg, d);
    let rhs = fft_values(a, w);
    assert forall|j: int| 0 <= j < d.spec_size() implies #[trigger] lhs[j] == rhs[j] by {
        let x = pow(w, j as nat);
        crate::encode::lemma_poly_eval_zero_pad(scale_by_powers(msg, c), (d.spec_size() - msg.len()) as nat, x);
        crate::fft::lemma_poly_eval_scaled(msg, c, x);
        vstd::arithmetic::div_mod::lemma_mod_twice(c * x, MODULUS as int);
        crate::fft::lemma_poly_eval_congruent(msg, d.point(j), c * x);
        lemma_val_eq(lhs[j], rhs[j]);
        lemma_from_val(fmod(poly_eval(msg, d.point(j))) as nat);
        lemma_from_val(fmod(poly_eval(a, x)) as nat);
    }
    assert(lhs =~= rhs);
}

/// The inverse transform on a domain undoes evaluation: applied to the
/// codeword of `msg`, it gives back `msg` padded with zeros to `|L|`.
pub proof fn lemma_ifft_domain_of_codeword(msg: Seq<Fp>, d: EvaluationDomain)
    requires
        d.wf(),
        msg.len() <= d.spec_size(),
        forall|i: int| 0 <= i < msg.len() ==> (#[trigger] msg[i]).val() < MODULUS,
    ensures
        ifft_domain_values(codeword(msg, d), d) == zero_pad(msg, (d.spec_size() - msg.len()) as nat),
{
    let md = MODULUS as int;
    let n = d.spec_size();
    let c = d.spec_offset().val() as int;
    let w = d.spec_generator().val() as int;
    let ic = inv_val(c);
    let k = (n - msg.len()) as nat;
    let a = zero_pad(scale_by_powers(msg, c), k);
    crate::domain::lemma_domain_wf(d);
    assert(fmod(c * ic) == 1) by {
        lemma_small_mod(c as nat, MODULUS as nat);
        crate::generator::lemma_inv_val_correct(c);
    }
    crate::fft::lemma_domain_root(d);
    lemma_codeword_as_transform(msg, d);
    lemma_from_val(0);
    assert forall|i: int| 0 <= i < a.len() implies (#[trigger] a[i]).val() < MODULUS by {
        if i < msg.len() {
            lemma_from_val(fmod(msg[i].val() * pow(c, i as nat)) as nat);
        }
    }
    lemma_fft_round_trip(a, w, d.spec_log_size());
    let e = codeword(msg, d);
    let back = ifft_domain_values(e, d);
    let padded = zero_pad(msg, k);
    assert forall|i: int| 0 <= i < n implies #[trigger] back[i] == padded[i] by {
        let pi = pow(ic, i as nat);
        assert(ifft_values(e, w)[i] == a[i]);
        lemma_from_val(fmod(a[i].val() * pi) as nat);
        if i < msg.len() {
            let mi = msg[i].val() as int;
            let ci = pow(c, i as nat);
            lemma_from_val(fmod(mi * ci) as nat);
            assert(a[i].val() == fmod(mi * ci));
            lemma_mul_mod_noop_general(mi * ci, pi, md);
            vstd::arithmetic::div_mod::lemma_mod_twice(mi * ci, md);
            vstd::arithmetic::power::lemma_pow_distributes(c, ic, i as nat);
            assert(mi * ci * pi == mi * (ci * pi)) by (nonlinear_arith);
            lemma_pow_mod_noop(c * ic, i as nat, md);
            lemma1_pow(i as nat);
            lemma_small_mod(1, MODULUS as nat);
            assert(fmod(ci * pi) == 1);
            lemma_mul_mod_noop_general(mi, ci * pi, md);
            lemma_small_mod(mi as nat, MODULUS as nat);
            assert(fmod(a[i].val() * pi) == mi);
            assert(back[i].val() == padded[i].val());
            lemma_val_eq(back[i], padded[i]);
        } else {
            assert(a[i].val() == 0);
            lemma_small_mod(0, MODULUS as nat);
            let ai = a[i].val() as int;
            assert(ai * pi == 0) by (nonlinear_arith)
                requires
                    ai == 0,
            ;
            assert(back[i].val() == 0);
            assert(padded[i].val() == 0);
            assert(back[i].val() == padded[i].val());
            lemma_val_eq(back[i], padded[i]);
        }
    }
    assert(back =~= padded);
}

/// Transform round trip on a domain: `ifft_on_domain(fft_on_domain(a)) = a`
/// for `|a| = |L|`.
pub proof fn lemma_domain_fft_round_trip(a: Seq<Fp>, d: EvaluationDomain)
    requires
        d.wf(),
        a.len() == d.spec_size(),
        forall|i: int| 0 <= i < a.len() ==> (#[trigger] a[i]).val() < MODULUS,
    ensures
        ifft_domain_values(domain_values(a, d), d) == a,
{
    assert(domain_values(a, d) =~= codeword(a, d));
    lemma_ifft_domain_of_codeword(a, d);
    assert(zero_pad(a, 0) =~= a);
}

/// Transform round trip on a domain, the other way round:
/// `fft_on_domain(ifft_on_domain(e)) = e` for `|e| = |L|`; the inverse
/// transform gives the coefficients of the polynomial taking the values `e`.
pub proof fn lemma_domain_ifft_round_trip(e: Seq<Fp>, d: EvaluationDomain)
    requires
        d.wf(),
        e.len() == d.spec_size(),
        forall|i: int| 0 <= i < e.len() ==> (#[trigger] e[i]).val() < MODULUS,
    ensures
        domain_values(ifft_domain_values(e, d), d) == e,
{
    let md = MODULUS as int;
    crate::domain::lemma_domain_wf(d);
    crate::fft::lemma_domain_root(d);
    let g = d.spec_generator().val() as int;
    let c = d.spec_offset().val() as int;
    let ci = inv_val(c);
    let big_g = ifft_values(e, g);
    let h = ifft_domain_values(e, d);
    assert(h =~= scale_by_powers(big_g, ci));
    lemma_fft_after_ifft(e, g, d.spec_log_size());
    lemma_small_mod(c as nat, MODULUS as nat);
    crate::generator::lemma_inv_val_correct(c);
    let r = domain_values(h, d);
    assert forall|j: int| 0 <= j < e.len() implies #[trigger] r[j] == e[j] by {
        let pj = pow(g, j as nat);
        let x = d.point(j);
        assert(x == fmod(c * pj));
        crate::fft::lemma_poly_eval_scaled(big_g, ci, x);
        // `c^(-1) * (c g^j) = g^j` modulo `p`.
        assert(fmod(ci * x) == fmod(pj)) by {
            lemma_mul_mod_noop_general(ci, c * pj, md);
            vstd::arithmetic::div_mod::lemma_mod_twice(c * pj, md);
            lemma_mul_mod_noop_general(ci, x, md);
            assert(ci * (c * pj) == (c * ci) * pj) by (nonlinear_arith);
            lemma_mul_mod_noop_general(c * ci, pj, md);
            lemma_mul_mod_noop_general(1, pj, md);
        }
        crate::fft::lemma_poly_eval_congruent(big_g, ci * x, pj);
        assert(fft_values(big_g, g)[j] == e[j]);
        lemma_mod_bound_local(poly_eval(h, x));
        lemma_from_val(fmod(poly_eval(h, x)) as nat);
        lemma_mod_bound_local(poly_eval(big_g, pj));
        lemma_from_val(fmod(poly_eval(big_g, pj)) as nat);
        lemma_val_eq(r[j], e[j]);
    }
    assert(r =~= e);
}

/// Reed-Solomon round trip: decoding the clean codeword of a message of at
/// most `degree_bound <= |L|` coefficients gives the message back (without
/// trailing zeros).
pub proof fn lemma_decode_encode(msg: Seq<Fp>, d: EvaluationDomain, degree_bound: nat)
    requires
        d.wf(),
        msg.len() <= degree_bound <= d.spec_size(),
        forall|i: int| 0 <= i < msg.len() ==> (#[trigger] msg[i]).val() < MODULUS,
    ensures
        strip(interpolated(codeword(msg, d), d, degree_bound)) == strip(msg),
{
    let n = d.spec_size();
    let k = (n - msg.len()) as nat;
    lemma_ifft_domain_of_codeword(msg, d);
    lemma_from_val(0);
    if degree_bound < n {
        assert(interpolated(codeword(msg, d), d, degree_bound) =~= zero_pad(msg, (degree_bound - msg.len()) as nat));
        lemma_strip_zero_pad(msg, (degree_bound - msg.len()) as nat);
    } else {
        lemma_strip_zero_pad(msg, k);
    }
}

} // verus!
