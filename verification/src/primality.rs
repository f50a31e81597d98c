//! Number theory behind the field: Bezout's identity, Euclid's lemma, and a
//! Pocklington-style primality certificate for numbers `n` with
//! `n - 1 = 2^e k` and `4^e >= n`.
use vstd::arithmetic::div_mod::{lemma_fundamental_div_mod, lemma_mod_bound, lemma_mul_mod_noop_general, lemma_small_mod};
use vstd::arithmetic::power::{lemma_pow_adds, lemma_pow_mod_noop, lemma_pow_multiplies, pow};
use vstd::arithmetic::power2::{lemma_pow2_pos, lemma_pow2_unfold, pow2};
use crate::arith::{lemma_pow_mod_is_pow, lemma_pow_mod_step, lemma_pow_mod_zero, pow_mod};
use vstd::prelude::*;
use vstd::relations::injective_on;
use vstd::set_lib::{lemma_int_range, lemma_len_subset, lemma_map_size, lemma_subset_equality, set_int_range};

verus! {

/// `n` is prime: at least `2`, with no divisor in `[2, n)`.
pub open spec fn is_prime(n: nat) -> bool {
    &&& n >= 2
    &&& forall|d: nat| 2 <= d < n ==> #[trigger] (n % d) != 0
}

/// The extended Euclidean algorithm: `(g, x, y)` with `a x + b y = g = gcd(a, b)`.
pub open spec fn egcd(a: nat, b: nat) -> (nat, int, int)
    decreases b,
{
    if b == 0 {
        (a, 1, 0)
    } else {
        let t = egcd(b, a % b);
        (t.0, t.2, t.1 - (a / b) as int * t.2)
    }
}

/// Bezout's identity: `egcd(a, b) = (g, x, y)` has `a x + b y = g`, and `g`
/// divides `a` and `b`.
pub proof fn lemma_bezout(a: nat, b: nat)
    ensures
        ({
            let (g, x, y) = egcd(a, b);
            &&& a * x + b * y == g
            &&& exists|k: int| a == #[trigger] (g * k)
            &&& exists|k: int| b == #[trigger] (g * k)
        }),
    decreases b,
{
    if b == 0 {
        assert(a == a * 1int);
        assert(0 == a * 0int);
    } else {
        let r = a % b;
        let q = a / b;
        lemma_fundamental_div_mod(a as int, b as int);
        lemma_bezout(b, r);
        let (g, x1, y1) = egcd(b, r);
        assert(b * x1 + r * y1 == g);
        let kb = choose|k: int| b == #[trigger] (g * k);
        let kr = choose|k: int| r == #[trigger] (g * k);
        assert(a == b * q + r);
        assert(a * y1 + b * (x1 - q * y1) == g) by (nonlinear_arith)
            requires
                a == b * q + r,
                b * x1 + r * y1 == g,
        ;
        assert(a == g * (kb * q + kr)) by (nonlinear_arith)
            requires
                a == b * q + r,
                b == g * kb,
                r == g * kr,
        ;
    }
}

/// Euclid's lemma: a prime dividing a product divides one of the factors.
pub proof fn lemma_euclid(q: nat, m: int, t: int)
    requires
        is_prime(q),
        (m * t) % (q as int) == 0,
        m % (q as int) != 0,
    ensures
        t % (q as int) == 0,
{
    let mm = (m % (q as int)) as nat;
    lemma_mod_bound(m, q as int);
    lemma_bezout(q, mm);
    let (g, x, y) = egcd(q, mm);
    let kq = choose|k: int| q == #[trigger] (g * k);
    let km = choose|k: int| mm == #[trigger] (g * k);
    // g divides q, so g = 1 or g = q; g divides mm < q with mm != 0, so g = 1.
    assert(g >= 1) by {
        if g == 0 {
            assert(q == 0 * kq);
        }
    }
    assert(kq >= 1) by (nonlinear_arith)
        requires
            q == g * kq,
            g >= 1,
            q >= 2,
    ;
    assert(g <= q) by (nonlinear_arith)
        requires
            q == g * kq,
            kq >= 1,
            g >= 1,
    ;
    assert(km >= 1) by (nonlinear_arith)
        requires
            mm == g * km,
            g >= 1,
            mm >= 1,
    ;
    assert(g <= mm) by (nonlinear_arith)
        requires
            mm == g * km,
            km >= 1,
            g >= 1,
    ;
    if g >= 2 {
        vstd::arithmetic::div_mod::lemma_mod_multiples_basic(kq, g as int);
        assert(q % g == 0) by (nonlinear_arith)
            requires
                q == g * kq,
                (kq * g) % (g as int) == 0,
        ;
        assert(false);
    }
    assert(g == 1);
    // q x + mm y = 1, so t = q (x t) + (mm t) y and q divides both terms.
    lemma_fundamental_div_mod(m, q as int);
    let mq = m / (q as int);
    assert(m == q * mq + mm);
    lemma_fundamental_div_mod(m * t, q as int);
    let c = (m * t) / (q as int);
    assert(m * t == q * c);
    assert(t == q * (x * t + c * y - mq * t * y)) by (nonlinear_arith)
        requires
            q * x + mm * y == 1,
            m == q * mq + mm,
            m * t == q * c,
    ;
    vstd::arithmetic::div_mod::lemma_mod_multiples_basic(x * t + c * y - mq * t * y, q as int);
    assert((q * (x * t + c * y - mq * t * y)) % (q as int) == 0) by (nonlinear_arith)
        requires
            ((x * t + c * y - mq * t * y) * q) % (q as int) == 0,
    ;
}


/// A divisor of a positive number is at most that number.
pub proof fn lemma_divisor_le(x: int, d: int)
    requires
        x > 0,
        d > 0,
        x % d == 0,
    ensures
        d <= x,
{
    lemma_fundamental_div_mod(x, d);
    let k = x / d;
    assert(x == d * k);
    assert(k >= 1) by (nonlinear_arith)
        requires
            x == d * k,
            x > 0,
            d > 0,
    ;
    assert(d <= x) by (nonlinear_arith)
        requires
            x == d * k,
            k >= 1,
            d > 0,
    ;
}

/// Divisibility is transitive: `d | r` and `r | n` give `d | n`.
pub proof fn lemma_divides_trans(n: int, r: int, d: int)
    requires
        r > 0,
        d > 0,
        n % r == 0,
        r % d == 0,
    ensures
        n % d == 0,
{
    lemma_fundamental_div_mod(n, r);
    lemma_fundamental_div_mod(r, d);
    let a = n / r;
    let b = r / d;
    assert(n == d * (b * a)) by (nonlinear_arith)
        requires
            n == r * a,
            r == d * b,
    ;
    vstd::arithmetic::div_mod::lemma_mod_multiples_basic(b * a, d);
    assert(d * (b * a) == (b * a) * d) by (nonlinear_arith);
}

/// Search upward from `d` for the least divisor of `n` that is at least `2`.
proof fn least_divisor_from(n: nat, d: nat) -> (r: nat)
    requires
        2 <= d <= n,
        forall|e: nat| 2 <= e < d ==> #[trigger] (n % e) != 0,
    ensures
        d <= r <= n,
        n % r == 0,
        forall|e: nat| 2 <= e < r ==> #[trigger] (n % e) != 0,
    decreases n - d,
{
    if n % d == 0 {
        d
    } else {
        assert(d < n) by {
            if d == n {
                vstd::arithmetic::div_mod::lemma_mod_self_0(n as int);
            }
        }
        least_divisor_from(n, d + 1)
    }
}

/// The least divisor `r >= 2` of `n >= 2` is prime.
pub proof fn lemma_least_divisor(n: nat) -> (r: nat)
    requires
        n >= 2,
    ensures
        2 <= r <= n,
        n % r == 0,
        is_prime(r),
        forall|e: nat| 2 <= e < r ==> #[trigger] (n % e) != 0,
{
    let r = least_divisor_from(n, 2);
    assert forall|d: nat| 2 <= d < r implies #[trigger] (r % d) != 0 by {
        if r % d == 0 {
            lemma_divides_trans(n as int, r as int, d as int);
            assert(n % d == 0);
        }
    }
    r
}

/// A prime divisor of a prime is that prime.
pub proof fn lemma_prime_divides_prime(s: nat, q: nat)
    requires
        is_prime(s),
        is_prime(q),
        q % s == 0,
    ensures
        s == q,
{
    lemma_divisor_le(q as int, s as int);
    if s < q {
        assert(q % s != 0);
    }
}

/// A prime dividing `q * rest`, with `q` prime, is `q` or divides `rest`.
pub proof fn lemma_prime_peel(s: nat, q: nat, rest: int)
    requires
        is_prime(s),
        is_prime(q),
        ((q as int) * rest) % (s as int) == 0,
    ensures
        s == q || rest % (s as int) == 0,
{
    if q % s == 0 {
        lemma_prime_divides_prime(s, q);
    } else {
        lemma_euclid(s, q as int, rest);
    }
}


/// `o` is the multiplicative order of `a` modulo `m`: the least positive
/// exponent with `a^o = 1 (mod m)`.
pub open spec fn is_order(a: int, m: int, o: nat) -> bool {
    &&& o >= 1
    &&& pow(a, o) % m == 1
    &&& forall|d: nat| 1 <= d < o ==> #[trigger] pow(a, d) % m != 1
}

/// `a^o = 1` gives `a^(o t) = 1`.
pub proof fn lemma_pow_one_mult(a: int, m: int, o: nat, t: nat)
    requires
        m >= 2,
        pow(a, o) % m == 1,
    ensures
        pow(a, o * t) % m == 1,
{
    lemma_pow_multiplies(a, o, t);
    lemma_pow_mod_noop(pow(a, o), t, m);
    vstd::arithmetic::power::lemma1_pow(t);
    lemma_small_mod(1, m as nat);
}

/// `a^(x + y) = a^x a^y` modulo `m`.
pub proof fn lemma_pow_mod_adds(a: int, m: int, x: nat, y: nat)
    requires
        m >= 2,
    ensures
        pow(a, x + y) % m == ((pow(a, x) % m) * (pow(a, y) % m)) % m,
{
    lemma_pow_adds(a, x, y);
    lemma_mul_mod_noop_general(pow(a, x), pow(a, y), m);
}

/// Search upward from `d` for the least exponent that gives `1`.
proof fn least_order_from(a: int, m: int, n: nat, d: nat) -> (o: nat)
    requires
        m >= 2,
        1 <= d <= n,
        pow(a, n) % m == 1,
        forall|e: nat| 1 <= e < d ==> #[trigger] pow(a, e) % m != 1,
    ensures
        d <= o <= n,
        is_order(a, m, o),
    decreases n - d,
{
    if pow(a, d) % m == 1 {
        d
    } else {
        least_order_from(a, m, n, d + 1)
    }
}

/// The order of `a` exists once some positive power of `a` is `1`.
pub proof fn lemma_order_exists(a: int, m: int, n: nat) -> (o: nat)
    requires
        m >= 2,
        n >= 1,
        pow(a, n) % m == 1,
    ensures
        1 <= o <= n,
        is_order(a, m, o),
{
    least_order_from(a, m, n, 1)
}

/// Every exponent that gives `1` is a multiple of the order.
pub proof fn lemma_order_divides(a: int, m: int, o: nat, n: nat)
    requires
        m >= 2,
        is_order(a, m, o),
        pow(a, n) % m == 1,
    ensures
        n % o == 0,
{
    lemma_fundamental_div_mod(n as int, o as int);
    let q = n / o;
    let r = n % o;
    assert(n == o * q + r);
    lemma_pow_one_mult(a, m, o, q);
    lemma_pow_mod_adds(a, m, o * q, r);
    lemma_mod_bound(pow(a, r as nat), m);
    lemma_small_mod((pow(a, r as nat) % m) as nat, m as nat);
    if r != 0 {
        assert(pow(a, r as nat) % m != 1);
    }
}

/// The powers of `a` below its order are non-zero modulo `m`.
pub proof fn lemma_order_power_nonzero(a: int, m: int, o: nat, i: nat)
    requires
        m >= 2,
        is_order(a, m, o),
    ensures
        pow(a, i) % m != 0,
{
    lemma_pow_one_mult(a, m, o, i + 1);
    assert(o * (i + 1) >= i) by (nonlinear_arith)
        requires
            o >= 1,
    ;
    let rest = (o * (i + 1) - i) as nat;
    lemma_pow_mod_adds(a, m, i, rest);
    assert(i + rest == o * (i + 1));
    assert(pow(a, i + rest) == pow(a, o * (i + 1)));
    if pow(a, i) % m == 0 {
        assert(((pow(a, i) % m) * (pow(a, rest) % m)) == 0);
        assert(0int % m == 0);
    }
}

/// The powers `a^0, ..., a^(o-1)` are distinct modulo `m`.
pub proof fn lemma_order_powers_distinct(a: int, m: int, o: nat, i: nat, j: nat)
    requires
        m >= 2,
        is_order(a, m, o),
        i < j < o,
    ensures
        pow(a, i) % m != pow(a, j) % m,
{
    let u = (o - i) as nat;
    lemma_pow_mod_adds(a, m, i, u);
    lemma_pow_mod_adds(a, m, j, u);
    let d = (j - i) as nat;
    assert(j + u == o + d);
    lemma_pow_mod_adds(a, m, o, d);
    lemma_mod_bound(pow(a, d), m);
    lemma_small_mod((pow(a, d) % m) as nat, m as nat);
    assert(pow(a, d) % m != 1);
}

/// Some `i` in `[0, o)` has `f(i) == y`.
pub open spec fn hits(f: spec_fn(int) -> int, o: int, y: int) -> bool {
    exists|i: int| 0 <= i < o && #[trigger] f(i) == y
}

/// Pigeonhole: an injective map of `[0, o)` into `[lo, hi)` has `o <= hi - lo`,
/// and is onto when `o == hi - lo`.
pub proof fn lemma_pigeonhole(f: spec_fn(int) -> int, o: int, lo: int, hi: int)
    requires
        0 <= o,
        lo <= hi,
        forall|i: int| 0 <= i < o ==> lo <= #[trigger] f(i) < hi,
        forall|i: int, j: int| 0 <= i < j < o ==> #[trigger] f(i) != #[trigger] f(j),
    ensures
        o <= hi - lo,
        o == hi - lo ==> forall|y: int| lo <= y < hi ==> #[trigger] hits(f, o, y),
{
    let dom = set_int_range(0, o);
    let img = dom.map(f);
    let rng = set_int_range(lo, hi);
    lemma_int_range(0, o);
    lemma_int_range(lo, hi);
    assert(injective_on(f, dom)) by {
        assert forall|x1: int, x2: int| dom.contains(x1) && dom.contains(x2) && #[trigger] f(x1) == #[trigger] f(x2) implies x1 == x2 by {
            if x1 < x2 {
                assert(f(x1) != f(x2));
            } else if x2 < x1 {
                assert(f(x2) != f(x1));
            }
        }
    }
    lemma_map_size(dom, img, f);
    assert(img.subset_of(rng));
    lemma_len_subset(img, rng);
    if o == hi - lo {
        lemma_subset_equality(img, rng);
        assert forall|y: int| lo <= y < hi implies #[trigger] hits(f, o, y) by {
            assert(rng.contains(y));
            assert(img.contains(y));
        }
    }
}


/// `2^e k = o c` with `c` odd makes `o` a multiple of `2^e`.
proof fn lemma_pow2_divides_odd(e: nat, k: int, o: int, c: int)
    requires
        pow2(e) * k == o * c,
        c % 2 == 1,
    ensures
        o % (pow2(e) as int) == 0,
    decreases e,
{
    if e == 0 {
        assert(pow2(0) == 1) by {
            vstd::arithmetic::power2::lemma2_to64();
        }
    } else {
        let h = pow2((e - 1) as nat);
        lemma_pow2_unfold(e);
        lemma_pow2_pos((e - 1) as nat);
        assert(o * c == 2 * (h * k)) by (nonlinear_arith)
            requires
                pow2(e) * k == o * c,
                pow2(e) == 2 * h,
        ;
        vstd::arithmetic::div_mod::lemma_mod_multiples_basic(h * k, 2);
        assert((o * c) % 2 == 0) by (nonlinear_arith)
            requires
                o * c == 2 * (h * k),
                ((h * k) * 2) % 2 == 0,
        ;
        lemma_mul_mod_noop_general(o, c, 2);
        lemma_fundamental_div_mod(o, 2);
        if o % 2 == 1 {
            assert(((o % 2) * (c % 2)) % 2 == 1);
        }
        let o2 = o / 2;
        assert(o == 2 * o2);
        assert(h * k == o2 * c) by (nonlinear_arith)
            requires
                o * c == 2 * (h * k),
                o == 2 * o2,
        ;
        lemma_pow2_divides_odd((e - 1) as nat, k, o2, c);
        lemma_fundamental_div_mod(o2, h as int);
        let j = o2 / (h as int);
        assert(o == j * pow2(e)) by (nonlinear_arith)
            requires
                o2 == h * j,
                o == 2 * o2,
                pow2(e) == 2 * h,
        ;
        vstd::arithmetic::div_mod::lemma_mod_multiples_basic(j, pow2(e) as int);
    }
}

/// Pocklington's criterion with the base `2`: an odd `n` with
/// `n - 1 = 2^e k`, `2^e 2^e >= n`, `a^(n-1) = 1` and `a^((n-1)/2) = -1`
/// modulo `n` is prime.
pub proof fn lemma_pocklington(n: nat, a: int, e: nat, k: nat)
    requires
        n >= 3,
        n % 2 == 1,
        n - 1 == pow2(e) * k,
        pow2(e) * pow2(e) >= n,
        pow(a, ((n - 1) / 2) as nat) % (n as int) == n - 1,
        pow(a, (n - 1) as nat) % (n as int) == 1,
    ensures
        is_prime(n),
{
    let r = lemma_least_divisor(n);
    if r == 2 {
        assert(n % 2 == 0);
    }
    let ri = r as int;
    let ni = n as int;
    lemma_fundamental_div_mod(ni, ri);
    let t = ni / ri;
    assert(ni == ri * t);
    assert(t >= 1) by (nonlinear_arith)
        requires
            ni == ri * t,
            ni >= 3,
            ri >= 3,
    ;
    let n1 = (n - 1) as nat;
    let h = ((n - 1) / 2) as nat;
    // Reduce the two congruences modulo the divisor `r`.
    vstd::arithmetic::div_mod::lemma_mod_mod(pow(a, n1), ri, t);
    vstd::arithmetic::div_mod::lemma_mod_mod(pow(a, h), ri, t);
    lemma_small_mod(1, r);
    assert(pow(a, n1) % ri == 1);
    assert(ri * (t - 1) + (ri - 1) == ni - 1) by (nonlinear_arith)
        requires
            ni == ri * t,
    ;
    vstd::arithmetic::div_mod::lemma_mod_multiples_vanish(t - 1, ri - 1, ri);
    lemma_small_mod((r - 1) as nat, r);
    assert(pow(a, h) % ri == ri - 1);
    // The order `o` of `a` modulo `r` divides `n - 1` with an odd cofactor.
    let o = lemma_order_exists(a, ri, n1);
    lemma_order_divides(a, ri, o, n1);
    lemma_fundamental_div_mod(n1 as int, o as int);
    let c = n1 / o;
    assert(n1 == o * c);
    if c % 2 == 0 {
        lemma_fundamental_div_mod(c as int, 2);
        let c2 = c / 2;
        assert(h == o * c2) by (nonlinear_arith)
            requires
                n1 == o * c,
                c == 2 * c2,
                n1 == 2 * h,
        ;
        lemma_pow_one_mult(a, ri, o, c2);
        assert(false);
    }
    lemma_pow2_divides_odd(e, k as int, o as int, c as int);
    lemma_pow2_pos(e);
    lemma_divisor_le(o as int, pow2(e) as int);
    // The powers of `a` below `o` are distinct and non-zero modulo `r`.
    let f = |i: int| pow(a, i as nat) % ri;
    assert forall|i: int| 0 <= i < o implies 1 <= #[trigger] f(i) < ri by {
        lemma_order_power_nonzero(a, ri, o, i as nat);
        lemma_mod_bound(pow(a, i as nat), ri);
    }
    assert forall|i: int, j: int| 0 <= i < j < o implies #[trigger] f(i) != #[trigger] f(j) by {
        lemma_order_powers_distinct(a, ri, o, i as nat, j as nat);
    }
    lemma_pigeonhole(f, o as int, 1, ri);
    assert(pow2(e) < r);
    if r < n {
        assert(t >= 2) by (nonlinear_arith)
            requires
                ni == ri * t,
                ri < ni,
                ri >= 1,
        ;
        vstd::arithmetic::div_mod::lemma_mod_multiples_basic(ri, t);
        assert(ni % t == 0) by (nonlinear_arith)
            requires
                ni == ri * t,
                (ri * t) % t == 0,
        ;
        if t < ri {
            assert(n % (t as nat) != 0);
        }
        assert(ni >= ri * ri) by (nonlinear_arith)
            requires
                ni == ri * t,
                t >= ri,
                ri >= 0,
        ;
        assert(ri * ri > pow2(e) * pow2(e)) by (nonlinear_arith)
            requires
                ri > pow2(e),
                pow2(e) >= 0,
        ;
    }
}


/// `3` is prime: `2^1 = -1` and `2^2 = 1` modulo `3`.
pub proof fn lemma_prime_3()
    ensures
        is_prime(3),
{
    lemma_pow_mod_zero(2, 3);
    lemma_pow_mod_step(2, 1, 3, 1);
    assert(pow_mod(2, 1, 3) == 2);
    lemma_pow_mod_step(2, 2, 3, 2);
    assert(pow_mod(2, 2, 3) == 1);
    lemma_pow_mod_is_pow(2, 2, 3);
    lemma_pow_mod_is_pow(2, 1, 3);
    vstd::arithmetic::power2::lemma2_to64();
    lemma_pocklington(3, 2, 1, 1);
}

/// `5` is prime: `2^2 = -1` and `2^4 = 1` modulo `5`.
pub proof fn lemma_prime_5()
    ensures
        is_prime(5),
{
    lemma_pow_mod_zero(2, 5);
    lemma_pow_mod_step(2, 1, 5, 1);
    assert(pow_mod(2, 1, 5) == 2);
    lemma_pow_mod_step(2, 2, 5, 2);
    assert(pow_mod(2, 2, 5) == 4);
    lemma_pow_mod_step(2, 4, 5, 4);
    assert(pow_mod(2, 4, 5) == 1);
    lemma_pow_mod_is_pow(2, 4, 5);
    lemma_pow_mod_is_pow(2, 2, 5);
    vstd::arithmetic::power2::lemma2_to64();
    lemma_pocklington(5, 2, 2, 1);
}

/// `17` is prime: `3^8 = -1` and `3^16 = 1` modulo `17`.
pub proof fn lemma_prime_17()
    ensures
        is_prime(17),
{
    lemma_pow_mod_zero(3, 17);
    lemma_pow_mod_step(3, 1, 17, 1);
    assert(pow_mod(3, 1, 17) == 3);
    lemma_pow_mod_step(3, 2, 17, 3);
    assert(pow_mod(3, 2, 17) == 9);
    lemma_pow_mod_step(3, 4, 17, 9);
    assert(pow_mod(3, 4, 17) == 13);
    lemma_pow_mod_step(3, 8, 17, 13);
    assert(pow_mod(3, 8, 17) == 16);
    lemma_pow_mod_step(3, 16, 17, 16);
    assert(pow_mod(3, 16, 17) == 1);
    lemma_pow_mod_is_pow(3, 16, 17);
    lemma_pow_mod_is_pow(3, 8, 17);
    vstd::arithmetic::power2::lemma2_to64();
    lemma_pocklington(17, 3, 4, 1);
}

/// `257` is prime: `3^128 = -1` and `3^256 = 1` modulo `257`.
pub proof fn lemma_prime_257()
    ensures
        is_prime(257),
{
    lemma_pow_mod_zero(3, 257);
    lemma_pow_mod_step(3, 1, 257, 1);
    assert(pow_mod(3, 1, 257) == 3);
    lemma_pow_mod_step(3, 2, 257, 3);
    assert(pow_mod(3, 2, 257) == 9);
    lemma_pow_mod_step(3, 4, 257, 9);
    assert(pow_mod(3, 4, 257) == 81);
    lemma_pow_mod_step(3, 8, 257, 81);
    assert(pow_mod(3, 8, 257) == 136);
    lemma_pow_mod_step(3, 16, 257, 136);
    assert(pow_mod(3, 16, 257) == 249);
    lemma_pow_mod_step(3, 32, 257, 249);
    assert(pow_mod(3, 32, 257) == 64);
    lemma_pow_mod_step(3, 64, 257, 64);
    assert(pow_mod(3, 64, 257) == 241);
    lemma_pow_mod_step(3, 128, 257, 241);
    assert(pow_mod(3, 128, 257) == 256);
    lemma_pow_mod_step(3, 256, 257, 256);
    assert(pow_mod(3, 256, 257) == 1);
    lemma_pow_mod_is_pow(3, 256, 257);
    lemma_pow_mod_is_pow(3, 128, 257);
    vstd::arithmetic::power2::lemma2_to64();
    lemma_pocklington(257, 3, 8, 1);
}

/// `65537` is prime: `3^32768 = -1` and `3^65536 = 1` modulo `65537`.
pub proof fn lemma_prime_65537()
    ensures
        is_prime(65537),
{
    lemma_pow_mod_zero(3, 65537);
    lemma_pow_mod_step(3, 1, 65537, 1);
    assert(pow_mod(3, 1, 65537) == 3);
    lemma_pow_mod_step(3, 2, 65537, 3);
    assert(pow_mod(3, 2, 65537) == 9);
    lemma_pow_mod_step(3, 4, 65537, 9);
    assert(pow_mod(3, 4, 65537) == 81);
    lemma_pow_mod_step(3, 8, 65537, 81);
    assert(pow_mod(3, 8, 65537) == 6561);
    lemma_pow_mod_step(3, 16, 65537, 6561);
    assert(pow_mod(3, 16, 65537) == 54449);
    lemma_pow_mod_step(3, 32, 65537, 54449);
    assert(pow_mod(3, 32, 65537) == 61869);
    lemma_pow_mod_step(3, 64, 65537, 61869);
    assert(pow_mod(3, 64, 65537) == 19139);
    lemma_pow_mod_step(3, 128, 65537, 19139);
    assert(pow_mod(3, 128, 65537) == 15028);
    lemma_pow_mod_step(3, 256, 65537, 15028);
    assert(pow_mod(3, 256, 65537) == 282);
    lemma_pow_mod_step(3, 512, 65537, 282);
    assert(pow_mod(3, 512, 65537) == 13987);
    lemma_pow_mod_step(3, 1024, 65537, 13987);
    assert(pow_mod(3, 1024, 65537) == 8224);
    lemma_pow_mod_step(3, 2048, 65537, 8224);
    assert(pow_mod(3, 2048, 65537) == 65529);
    lemma_pow_mod_step(3, 4096, 65537, 65529);
    assert(pow_mod(3, 4096, 65537) == 64);
    lemma_pow_mod_step(3, 8192, 65537, 64);
    assert(pow_mod(3, 8192, 65537) == 4096);
    lemma_pow_mod_step(3, 16384, 65537, 4096);
    assert(pow_mod(3, 16384, 65537) == 65281);
    lemma_pow_mod_step(3, 32768, 65537, 65281);
    assert(pow_mod(3, 32768, 65537) == 65536);
    lemma_pow_mod_step(3, 65536, 65537, 65536);
    assert(pow_mod(3, 65536, 65537) == 1);
    lemma_pow_mod_is_pow(3, 65536, 65537);
    lemma_pow_mod_is_pow(3, 32768, 65537);
    vstd::arithmetic::power2::lemma2_to64();
    lemma_pocklington(65537, 3, 16, 1);
}

/// `2` is prime.
pub proof fn lemma_prime_2()
    ensures
        is_prime(2),
{
}

} // verus!
