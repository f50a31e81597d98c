//! Modular-arithmetic facts over the integers that the field and the
//! polynomial layers share.
use vstd::arithmetic::div_mod::{
    lemma_add_mod_noop, lemma_mod_twice, lemma_mul_mod_noop_general, lemma_sub_mod_noop,
    lemma_small_mod, lemma_mod_bound,
};
use vstd::arithmetic::mul::{lemma_mul_is_associative, lemma_mul_is_commutative};
use vstd::arithmetic::power::{lemma_pow_adds, lemma_pow_mod_noop, lemma_pow_multiplies, pow};
use vstd::prelude::*;

verus! {

/// Square-and-multiply exponentiation modulo `m`. Its definition stays
/// hidden outside the lemmas below, so that long chains of concrete
/// evaluations do not unfold it.
#[verifier::opaque]
pub open spec fn pow_mod(b: nat, e: nat, m: nat) -> nat
    decreases e,
{
    if m == 0 {
        0
    } else if e == 0 {
        1nat % m
    } else {
        let h = pow_mod(b, e / 2, m);
        if e % 2 == 0 {
            (h * h) % m
        } else {
            ((h * h) % m * b) % m
        }
    }
}

/// One unfolding of `pow_mod` with the half-exponent value supplied.
pub proof fn lemma_pow_mod_step(b: nat, e: nat, m: nat, h: nat)
    requires
        m > 0,
        e > 0,
        pow_mod(b, e / 2, m) == h,
    ensures
        pow_mod(b, e, m) == if e % 2 == 0 {
            (h * h) % m
        } else {
            ((h * h) % m * b) % m
        },
{
    reveal(pow_mod);
}

/// One unfolding of `pow_mod` with the quotients of both reductions
/// supplied, so that a concrete step needs only linear arithmetic.
pub proof fn lemma_pow_mod_step_exact(b: nat, e: nat, m: nat, h: nat, q1: int, h2: int, q2: int, v: nat)
    requires
        m > 0,
        e > 0,
        pow_mod(b, e / 2, m) == h,
        h * h == q1 * m + h2,
        0 <= h2 < m,
        e % 2 == 0 ==> v == h2,
        e % 2 == 1 ==> h2 * b == q2 * m + v,
        v < m,
    ensures
        pow_mod(b, e, m) == v,
{
    lemma_pow_mod_step(b, e, m, h);
    vstd::arithmetic::div_mod::lemma_fundamental_div_mod_converse_mod((h * h) as int, m as int, q1, h2);
    if e % 2 == 1 {
        vstd::arithmetic::div_mod::lemma_fundamental_div_mod_converse_mod(h2 * (b as int), m as int, q2, v as int);
    }
}

/// `pow_mod(b, 0, m) = 1` for `m >= 2`.
pub proof fn lemma_pow_mod_zero(b: nat, m: nat)
    requires
        m >= 2,
    ensures
        pow_mod(b, 0, m) == 1,
{
    reveal(pow_mod);
    lemma_small_mod(1, m);
}

/// `pow_mod` computes `b^e mod m`.
pub proof fn lemma_pow_mod_is_pow(b: nat, e: nat, m: nat)
    requires
        m > 0,
    ensures
        pow_mod(b, e, m) == pow(b as int, e) % (m as int),
    decreases e,
{
    reveal(pow_mod);
    if e == 0 {
        reveal(pow);
    } else {
        lemma_pow_mod_is_pow(b, e / 2, m);
        let h = pow(b as int, e / 2);
        let hm = pow_mod(b, e / 2, m);
        assert(hm == h % (m as int));
        lemma_pow_adds(b as int, e / 2, e / 2);
        lemma_mul_mod_noop_general(h, h, m as int);
        if e % 2 == 0 {
            assert(e == e / 2 + e / 2);
        } else {
            assert(e == (e / 2 + e / 2) + 1);
            lemma_pow_adds(b as int, e / 2 + e / 2, 1);
            reveal(pow);
            assert(pow(b as int, 1) == b * pow(b as int, 0));
            lemma_mul_mod_noop_general(h * h, b as int, m as int);
            lemma_mod_twice(b as int, m as int);
            lemma_mul_mod_noop_general((h * h) % (m as int), b as int, m as int);
        }
    }
}

/// `(a * b) * c == a * (b * c)` on integers, exposed for nonlinear steps.
pub proof fn lemma_mul3(a: int, b: int, c: int)
    ensures
        (a * b) * c == a * (b * c),
{
    lemma_mul_is_associative(a, b, c);
}

/// `x^e mod m` only depends on `x mod m`, stated for two congruent bases.
pub proof fn lemma_pow_congruent(x: int, y: int, e: nat, m: int)
    requires
        m > 0,
        x % m == y % m,
    ensures
        pow(x, e) % m == pow(y, e) % m,
{
    lemma_pow_mod_noop(x, e, m);
    lemma_pow_mod_noop(y, e, m);
}

/// One step of square-and-multiply, in modular form.
pub proof fn lemma_square_multiply_step(r: int, b: int, e: nat, m: int)
    requires
        m > 0,
    ensures
        e % 2 == 1 ==> ((r * b) % m * pow((b * b) % m, e / 2)) % m == (r * pow(b, e)) % m,
        e % 2 == 0 ==> (r * pow((b * b) % m, e / 2)) % m == (r * pow(b, e)) % m,
{
    let q = e / 2;
    lemma_pow_mod_noop(b * b, q, m);
    reveal(pow);
    assert(pow(b, 2) == b * pow(b, 1));
    assert(pow(b, 1) == b * pow(b, 0));
    assert(b * b == pow(b, 2));
    lemma_pow_multiplies(b, 2, q);
    assert(pow(b * b, q) == pow(b, 2 * q));
    if e % 2 == 1 {
        assert(e == 2 * q + 1);
        lemma_pow_adds(b, 2 * q, 1);
        assert(pow(b, e) == pow(b, 2 * q) * b);
        lemma_mul_mod_noop_general(r * b, pow((b * b) % m, q), m);
        lemma_mul_mod_noop_general(r * b, pow(b, 2 * q), m);
        lemma_mul3(r, b, pow(b, 2 * q));
        lemma_mul_is_commutative(b, pow(b, 2 * q));
    } else {
        assert(e == 2 * q);
        lemma_mul_mod_noop_general(r, pow((b * b) % m, q), m);
        lemma_mul_mod_noop_general(r, pow(b, 2 * q), m);
    }
}

/// Sums of congruent terms are congruent.
pub proof fn lemma_mod_add_congr(a1: int, a2: int, b1: int, b2: int, m: int)
    requires
        m > 0,
        a1 % m == a2 % m,
        b1 % m == b2 % m,
    ensures
        (a1 + b1) % m == (a2 + b2) % m,
{
    lemma_add_mod_noop(a1, b1, m);
    lemma_add_mod_noop(a2, b2, m);
}

/// Differences of congruent terms are congruent.
pub proof fn lemma_mod_sub_congr(a1: int, a2: int, b1: int, b2: int, m: int)
    requires
        m > 0,
        a1 % m == a2 % m,
        b1 % m == b2 % m,
    ensures
        (a1 - b1) % m == (a2 - b2) % m,
{
    lemma_sub_mod_noop(a1, b1, m);
    lemma_sub_mod_noop(a2, b2, m);
}

/// Products of congruent factors are congruent.
pub proof fn lemma_mod_mul_congr(a1: int, a2: int, b1: int, b2: int, m: int)
    requires
        m > 0,
        a1 % m == a2 % m,
        b1 % m == b2 % m,
    ensures
        (a1 * b1) % m == (a2 * b2) % m,
{
    lemma_mul_mod_noop_general(a1, b1, m);
    lemma_mul_mod_noop_general(a2, b2, m);
}

} // verus!
