//! STIR parameters: domain and degree sizes, folding factor, round count
//! and the per-round repetition schedule.
use crate::fft::is_pow2;
use vstd::arithmetic::power::pow;
use vstd::arithmetic::power2::{lemma_pow2, pow2};
use vstd::prelude::*;

verus! {

/// The smallest folding factor STIR accepts.
pub const K_MIN: u32 = 4;

/// `ceil(a / b)` for `b > 0`.
pub open spec fn ceil_div(a: nat, b: nat) -> nat {
    (((a + b - 1) as int) / (b as int)) as nat
}

/// The number of trailing zero bits of a 32-bit word (`32` for zero).
pub open spec fn tz32(x: nat) -> nat
    decreases x,
{
    if x == 0 {
        32
    } else if x % 2 == 1 {
        0
    } else {
        1 + tz32(x / 2)
    }
}

/// The base-2 logarithm of a power of two.
pub open spec fn log2_of(x: nat) -> nat
    decreases x,
{
    if x <= 1 {
        0
    } else {
        1 + log2_of(x / 2)
    }
}

/// The harmonic repetition schedule `t_i = ceil(lambda / (m * (r + i)))` for `i = 0..=m`.
pub open spec fn harmonic_schedule(lambda: nat, m: nat, rate_log_inv: nat) -> Seq<u32> {
    Seq::new(m + 1, |i: int| ceil_div(lambda, m * (rate_log_inv + i as nat)) as u32)
}

/// The parameter set of a STIR instance.
#[derive(Clone, Debug)]
pub struct StirParams {
    /// `log2 |L_0|`.
    pub log_initial_domain_size: u32,
    /// `d_0`, the degree bound of the committed polynomial.
    pub initial_degree_bound: usize,
    /// `k`, the folding factor.
    pub folding_factor: u32,
    /// `M`, the number of folding rounds.
    pub num_rounds: u32,
    /// `log2(1 / rho_0)`.
    pub rate_log_inv: u32,
    /// Target security `lambda` in bits.
    pub security_bits: u32,
    /// `t_0, ..., t_M`: shift queries per round plus the final round.
    pub repetition_schedule: Vec<u32>,
    /// `s`, OOD samples per round.
    pub ood_samples: u32,
    /// The degree bound of the final polynomial.
    pub stopping_degree: usize,
}

/// What `validate` checks, in order; `None` when every check passes.
pub open spec fn first_violation(p: StirParams) -> Option<&'static str> {
    if p.folding_factor < K_MIN {
        Some("folding_factor < K_MIN (STIR requires k ≥ 4, paper §4.2)")
    } else if !is_pow2(p.folding_factor as nat) {
        Some("folding_factor must be a power of 2 (FFT requires power-of-2 fold size)")
    } else if p.num_rounds < 1 {
        Some("num_rounds must be ≥ 1")
    } else if p.repetition_schedule@.len() != p.num_rounds + 1 {
        Some("repetition_schedule.len() must equal num_rounds + 1")
    } else if p.initial_degree_bound > pow2(p.log_initial_domain_size as nat) {
        Some("initial_degree_bound > |L_0| (rate must be ≤ 1)")
    } else if p.stopping_degree < 1 {
        Some("stopping_degree must be ≥ 1")
    } else if p.stopping_degree > p.initial_degree_bound {
        Some("stopping_degree must be ≤ initial_degree_bound")
    } else if p.rate_log_inv < 1 {
        Some("rate_log_inv must be ≥ 1 (rate strictly < 1)")
    } else if p.rate_log_inv + log2_of(p.initial_degree_bound as nat) != p.log_initial_domain_size {
        Some("rate_log_inv must equal log2(|L_0| / d_0)")
    } else if p.security_bits < 1 {
        Some("security_bits must be ≥ 1")
    } else if p.ood_samples < 1 {
        Some("ood_samples must be ≥ 1 (s = 0 disables OOD collapse)")
    } else {
        None
    }
}

/// Trailing zero bits of a 32-bit word.
pub fn trailing_zeros_u32(x: u32) -> (r: u32)
    ensures
        r == tz32(x as nat),
{
    if x == 0 {
        return 32;
    }
    let mut v: u32 = x;
    let mut c: u32 = 0;
    proof {
        vstd::arithmetic::power2::lemma2_to64();
        lemma_tz32_bound(x as nat, 32);
    }
    while v % 2 == 0
        invariant
            v > 0,
            c + tz32(v as nat) == tz32(x as nat),
            tz32(x as nat) < 32,
        decreases v,
    {
        v = v / 2;
        c = c + 1;
    }
    c
}

/// A non-zero word below `2^k` has fewer than `k` trailing zeros.
proof fn lemma_tz32_bound(x: nat, k: nat)
    requires
        0 < x < pow2(k),
    ensures
        tz32(x) < k,
    decreases x,
{
    vstd::arithmetic::power2::lemma2_to64();
    if x % 2 == 0 {
        if k == 0 {
            assert(false);
        }
        vstd::arithmetic::power2::lemma_pow2_adds((k - 1) as nat, 1);
        lemma_tz32_bound(x / 2, (k - 1) as nat);
    } else {
        if k == 0 {
            assert(false);
        }
    }
}

/// `x` is a power of two.
pub fn is_power_of_two_u64(x: u64) -> (r: bool)
    ensures
        r == is_pow2(x as nat),
{
    if x == 0 {
        return false;
    }
    let mut v: u64 = x;
    while v > 1 && v % 2 == 0
        invariant
            v > 0,
            is_pow2(v as nat) == is_pow2(x as nat),
        decreases v,
    {
        v = v / 2;
    }
    v == 1
}

/// `log2(x)` and `x == 2^log2(x)` for a power of two `x`.
pub proof fn lemma_pow2_log(x: nat)
    requires
        is_pow2(x),
    ensures
        x == pow2(log2_of(x)),
    decreases x,
{
    vstd::arithmetic::power2::lemma2_to64();
    if x > 1 {
        lemma_pow2_log(x / 2);
        vstd::arithmetic::power2::lemma_pow2_adds(log2_of(x / 2), 1);
    }
}

/// `2^k`, for `k` below the word size.
pub fn pow2_usize(k: u32) -> (r: usize)
    requires
        k < usize::BITS,
    ensures
        r == pow2(k as nat),
{
    let mut p: usize = 1;
    let mut i: u32 = 0;
    proof {
        vstd::arithmetic::power2::lemma2_to64();
    }
    while i < k
        invariant
            i <= k,
            k < usize::BITS,
            p == pow2(i as nat),
        decreases k - i,
    {
        proof {
            vstd::arithmetic::power2::lemma_pow2_adds(i as nat, 1);
            vstd::arithmetic::power2::lemma2_to64();
            vstd::arithmetic::power2::lemma2_to64_rest();
            vstd::arithmetic::power2::lemma_pow2_strictly_increases((i + 1) as nat, usize::BITS as nat);
            assert(usize::BITS == 32 || usize::BITS == 64);
            if usize::BITS == 32 {
                assert(pow2(32) == 0x1_0000_0000);
            }
        }
        p = p * 2;
        i = i + 1;
    }
    p
}

/// `ceil(a / b)` without overflow.
pub fn div_ceil_u32(a: u32, b: u32) -> (r: u32)
    requires
        b > 0,
    ensures
        r == ceil_div(a as nat, b as nat),
{
    let q = a / b;
    proof {
        vstd::arithmetic::div_mod::lemma_fundamental_div_mod(a as int, b as int);
    }
    if a % b != 0 {
        proof {
            lemma_ceil_div_up(a as nat, b as nat);
            assert(b >= 2);
            assert(q <= a / 2) by {
                vstd::arithmetic::div_mod::lemma_div_is_ordered_by_denominator(a as int, 2, b as int);
            }
        }
        q + 1
    } else {
        proof {
            lemma_ceil_div_exact(a as nat, b as nat);
        }
        q
    }
}

/// `ceil(a / b) = a / b + 1` when `b` does not divide `a`.
proof fn lemma_ceil_div_up(a: nat, b: nat)
    requires
        b > 0,
        a % b != 0,
    ensures
        ceil_div(a, b) == a / b + 1,
{
    vstd::arithmetic::div_mod::lemma_fundamental_div_mod(a as int, b as int);
    let q = a / b;
    let r = a % b;
    assert(a + b - 1 == (q + 1) * b + (r - 1)) by (nonlinear_arith)
        requires
            a == b * q + r,
    ;
    vstd::arithmetic::div_mod::lemma_fundamental_div_mod_converse(
        (a + b - 1) as int,
        b as int,
        (q + 1) as int,
        (r - 1) as int,
    );
}

/// `ceil(a / b) = a / b` when `b` divides `a`.
proof fn lemma_ceil_div_exact(a: nat, b: nat)
    requires
        b > 0,
        a % b == 0,
    ensures
        ceil_div(a, b) == a / b,
{
    vstd::arithmetic::div_mod::lemma_fundamental_div_mod(a as int, b as int);
    let q = a / b;
    assert(a + b - 1 == q * b + (b - 1)) by (nonlinear_arith)
        requires
            a == b * q + 0,
    ;
    vstd::arithmetic::div_mod::lemma_fundamental_div_mod_converse(
        (a + b - 1) as int,
        b as int,
        q as int,
        (b - 1) as int,
    );
}

/// `ceil(a / b)` is the least `t` with `t * b >= a`, and it is at most `a`.
pub proof fn lemma_ceil_div_least_cover(a: nat, b: nat)
    requires
        b > 0,
    ensures
        ceil_div(a, b) * b >= a,
        (ceil_div(a, b) - 1) * b < a,
        ceil_div(a, b) <= a || a == 0,
        a == 0 ==> ceil_div(a, b) == 0,
{
    vstd::arithmetic::div_mod::lemma_fundamental_div_mod(a as int, b as int);
    let q = a / b;
    let r = a % b;
    if r != 0 {
        lemma_ceil_div_up(a, b);
        assert((q + 1) * b >= a) by (nonlinear_arith)
            requires
                a == b * q + r,
                r < b,
        ;
        assert(q * b < a) by (nonlinear_arith)
            requires
                a == b * q + r,
                r > 0,
        ;
        assert(((q + 1) - 1) * b == q * b);
        assert(q + 1 <= a) by (nonlinear_arith)
            requires
                a == b * q + r,
                r > 0,
                b >= 1,
        ;
    } else {
        lemma_ceil_div_exact(a, b);
        assert(q * b >= a) by (nonlinear_arith)
            requires
                a == b * q + 0,
        ;
        if a > 0 {
            assert((q - 1) * b < a) by (nonlinear_arith)
                requires
                    a == b * q + 0,
                    b > 0,
            ;
            assert(q <= a) by (nonlinear_arith)
                requires
                    a == b * q + 0,
                    b >= 1,
            ;
        } else {
            assert(q == 0) by (nonlinear_arith)
                requires
                    0 == b * q + 0,
                    b > 0,
            ;
            assert((0 - 1) * (b as int) < 0) by (nonlinear_arith)
                requires
                    b > 0,
            ;
        }
    }
}

/// A least cover does not grow when the divisor grows: if `t1` is the
/// least `t` with `t * b1 >= a` and `t2` the least with `t2 * b2 >= a`,
/// with `b1 <= b2`, then `t2 <= t1`.
proof fn lemma_least_cover_antitone(a: int, b1: int, b2: int, t1: int, t2: int)
    requires
        0 < b1 <= b2,
        t1 >= 0,
        t1 * b1 >= a,
        (t2 - 1) * b2 < a,
    ensures
        t2 <= t1,
{
    if t2 > t1 {
        assert((t2 - 1) * b2 >= t1 * b1) by (nonlinear_arith)
            requires
                t2 - 1 >= t1,
                t1 >= 0,
                0 < b1 <= b2,
        ;
    }
}

/// The repetition schedule for `lambda` bits, `m` rounds and initial rate
/// `2^-r`: round `i` has `log2(1/rho_i) = r + i`, and `t_i` is the least
/// count with `t_i * m * (r + i) >= lambda`, so that each of the `m + 1`
/// rounds contributes at least `lambda / m` bits; the counts never grow
/// from one round to the next.
pub proof fn lemma_harmonic_schedule_law(lambda: nat, m: nat, r: nat)
    requires
        m >= 1,
        r >= 1,
        lambda <= u32::MAX,
    ensures
        harmonic_schedule(lambda, m, r).len() == m + 1,
        forall|i: int| 0 <= i <= m ==> {
            let t = #[trigger] harmonic_schedule(lambda, m, r)[i] as int;
            &&& t * (m * (r + i)) >= lambda
            &&& (t - 1) * (m * (r + i)) < lambda
        },
        forall|i: int, j: int|
            0 <= i <= j <= m ==> #[trigger] harmonic_schedule(lambda, m, r)[j] <= #[trigger] harmonic_schedule(
                lambda,
                m,
                r,
            )[i],
{
    let s = harmonic_schedule(lambda, m, r);
    assert forall|i: int| 0 <= i <= m implies {
        let t = #[trigger] s[i] as int;
        &&& t * (m * (r + i)) >= lambda
        &&& (t - 1) * (m * (r + i)) < lambda
    } by {
        let d = m * (r + i as nat);
        assert(d >= 1) by (nonlinear_arith)
            requires
                m >= 1,
                r >= 1,
                i >= 0,
                d == m * (r + i),
        ;
        lemma_ceil_div_least_cover(lambda, d);
        assert(s[i] as int == ceil_div(lambda, d) as int);
    }
    assert forall|i: int, j: int| 0 <= i <= j <= m implies #[trigger] s[j] <= #[trigger] s[i] by {
        let di = m * (r + i);
        let dj = m * (r + j);
        assert(0 < di <= dj) by (nonlinear_arith)
            requires
                m >= 1,
                r >= 1,
                0 <= i <= j,
                di == m * (r + i),
                dj == m * (r + j),
        ;
        lemma_least_cover_antitone(lambda as int, di, dj, s[i] as int, s[j] as int);
    }
}

/// The harmonic schedule for `lambda`, `m` rounds and rate `2^-rate_log_inv`.
fn build_schedule(lambda: u32, m: u32, rate_log_inv: u32) -> (r: Vec<u32>)
    requires
        m >= 1,
        rate_log_inv >= 1,
        m * (rate_log_inv + m) <= u32::MAX,
    ensures
        r@ == harmonic_schedule(lambda as nat, m as nat, rate_log_inv as nat),
        r@.len() == m + 1,
        forall|i: int| 0 <= i <= m ==> {
            let t = #[trigger] r@[i] as int;
            &&& t * (m * (rate_log_inv + i)) >= lambda
            &&& (t - 1) * (m * (rate_log_inv + i)) < lambda
        },
        forall|i: int, j: int| 0 <= i <= j <= m ==> #[trigger] r@[j] <= #[trigger] r@[i],
{
    proof {
        lemma_harmonic_schedule_law(lambda as nat, m as nat, rate_log_inv as nat);
    }
    let mut out: Vec<u32> = Vec::new();
    let mut i: u32 = 0;
    while i <= m
        invariant
            i <= m + 1,
            m >= 1,
            rate_log_inv >= 1,
            m * (rate_log_inv + m) <= u32::MAX,
            out@ == harmonic_schedule(lambda as nat, m as nat, rate_log_inv as nat).subrange(0, i as int),
        decreases m + 1 - i,
    {
        assert(rate_log_inv + m <= m * (rate_log_inv + m)) by (nonlinear_arith)
            requires
                m >= 1,
        ;
        let log_inv_rho_i = rate_log_inv + i;
        assert(m * log_inv_rho_i <= m * (rate_log_inv + m)) by (nonlinear_arith)
            requires
                log_inv_rho_i <= rate_log_inv + m,
        ;
        assert(m * log_inv_rho_i >= 1) by (nonlinear_arith)
            requires
                m >= 1,
                log_inv_rho_i >= 1,
        ;
        let denom = m * log_inv_rho_i;
        let t = div_ceil_u32(lambda, denom);
        out.push(t);
        i = i + 1;
        assert(out@ =~= harmonic_schedule(lambda as nat, m as nat, rate_log_inv as nat).subrange(0, i as int));
    }
    assert(out@ =~= harmonic_schedule(lambda as nat, m as nat, rate_log_inv as nat));
    out
}

/// `log2` of a power of two word, by counting halvings.
fn log2_usize(x: usize) -> (r: u32)
    ensures
        r == log2_of(x as nat),
        r < 64,
{
    let mut v: usize = x;
    let mut c: u32 = 0;
    proof {
        lemma_log2_bound(x as nat);
    }
    while v > 1
        invariant
            c + log2_of(v as nat) == log2_of(x as nat),
            log2_of(x as nat) < 64,
        decreases v,
    {
        v = v / 2;
        c = c + 1;
    }
    c
}

/// The logarithm of a word is below `64`.
proof fn lemma_log2_bound(x: nat)
    requires
        x <= u64::MAX,
    ensures
        log2_of(x) < 64,
{
    vstd::arithmetic::power2::lemma2_to64();
    vstd::arithmetic::power2::lemma2_to64_rest();
    lemma_log2_mono_bound(x, 64);
}

/// `x < 2^k` implies `log2(x) < k`.
proof fn lemma_log2_mono_bound(x: nat, k: nat)
    requires
        x < pow2(k),
    ensures
        x <= 1 || log2_of(x) < k,
    decreases x,
{
    vstd::arithmetic::power2::lemma2_to64();
    if x > 1 {
        if k == 0 {
            assert(false);
        } else {
            vstd::arithmetic::power2::lemma_pow2_adds((k - 1) as nat, 1);
            lemma_log2_mono_bound(x / 2, (k - 1) as nat);
            if k == 1 {
                assert(false);
            }
            if x / 2 <= 1 {
                assert(log2_of(x / 2) == 0);
            }
            assert(log2_of(x) == 1 + log2_of(x / 2));
        }
    }
}

/// A power of two has `log2` trailing zeros.
pub proof fn lemma_tz_of_pow2(x: nat)
    requires
        is_pow2(x),
        x <= u32::MAX,
    ensures
        tz32(x) == log2_of(x),
    decreases x,
{
    if x > 1 {
        lemma_tz_of_pow2(x / 2);
    }
}

impl StirParams {
    /// Parameters for `|L_0| = 2^log_initial_domain_size`, degree bound `d_0`
    /// and folding factor `k`, with stopping degree `1`, `2` OOD samples,
    /// `128`-bit security and the harmonic repetition schedule.
    pub fn new(log_initial_domain_size: u32, initial_degree_bound: usize, folding_factor: u32) -> (r: StirParams)
        requires
            folding_factor >= K_MIN,
            is_pow2(folding_factor as nat),
            log_initial_domain_size < usize::BITS,
            initial_degree_bound <= pow2(log_initial_domain_size as nat),
            is_pow2(initial_degree_bound as nat),
            initial_degree_bound < pow2(log_initial_domain_size as nat),
            initial_degree_bound >= 2,
        ensures
            r.log_initial_domain_size == log_initial_domain_size,
            r.initial_degree_bound == initial_degree_bound,
            r.folding_factor == folding_factor,
            r.num_rounds == ceil_div(log2_of(initial_degree_bound as nat), log2_of(folding_factor as nat)),
            r.rate_log_inv == log_initial_domain_size - log2_of(initial_degree_bound as nat),
            r.security_bits == 128,
            r.ood_samples == 2,
            r.stopping_degree == 1,
            r.repetition_schedule@ == harmonic_schedule(128, r.num_rounds as nat, r.rate_log_inv as nat),
            r.repetition_schedule@.len() == r.num_rounds + 1,
            forall|i: int| 0 <= i <= r.num_rounds ==> {
                let t = #[trigger] r.repetition_schedule@[i] as int;
                &&& t * (r.num_rounds * (r.rate_log_inv + i)) >= 128
                &&& (t - 1) * (r.num_rounds * (r.rate_log_inv + i)) < 128
            },
            forall|i: int, j: int|
                0 <= i <= j <= r.num_rounds ==> #[trigger] r.repetition_schedule@[j] <= #[trigger] r.repetition_schedule@[i],
            first_violation(r) is None,
    {
        let domain_size: usize = pow2_usize(log_initial_domain_size);
        let log_initial_degree_bound: u32 = log2_usize(initial_degree_bound);
        proof {
            lemma_pow2_log(initial_degree_bound as nat);
            if log_initial_degree_bound >= log_initial_domain_size {
                if log_initial_degree_bound > log_initial_domain_size {
                    vstd::arithmetic::power2::lemma_pow2_strictly_increases(
                        log_initial_domain_size as nat,
                        log_initial_degree_bound as nat,
                    );
                }
                assert(false);
            }
        }
        let rate_log_inv: u32 = log_initial_domain_size - log_initial_degree_bound;
        let log_folding_factor: u32 = trailing_zeros_u32(folding_factor);
        proof {
            lemma_tz_of_pow2(folding_factor as nat);
            lemma_pow2_log(folding_factor as nat);
            vstd::arithmetic::power2::lemma2_to64();
            if log_folding_factor < 2 {
                assert(folding_factor == pow2(log_folding_factor as nat));
                assert(false);
            }
            if log_initial_degree_bound == 0 {
                assert(false);
            }
        }
        let num_rounds: u32 = div_ceil_u32(log_initial_degree_bound, log_folding_factor);
        proof {
            assert(num_rounds >= 1 && num_rounds <= log_initial_degree_bound) by {
                vstd::arithmetic::div_mod::lemma_fundamental_div_mod(
                    log_initial_degree_bound as int,
                    log_folding_factor as int,
                );
                assert(log_initial_degree_bound / log_folding_factor <= log_initial_degree_bound) by (nonlinear_arith)
                    requires
                        log_folding_factor >= 2,
                ;
                if log_initial_degree_bound % log_folding_factor != 0 {
                    lemma_ceil_div_up(log_initial_degree_bound as nat, log_folding_factor as nat);
                    assert(log_initial_degree_bound / log_folding_factor < log_initial_degree_bound) by (nonlinear_arith)
                        requires
                            log_folding_factor >= 2,
                            log_initial_degree_bound >= 1,
                    ;
                } else {
                    lemma_ceil_div_exact(log_initial_degree_bound as nat, log_folding_factor as nat);
                    assert(log_initial_degree_bound / log_folding_factor >= 1) by (nonlinear_arith)
                        requires
                            log_folding_factor >= 2,
                            log_initial_degree_bound >= 1,
                            log_initial_degree_bound % log_folding_factor == 0,
                    ;
                }
            }
            assert(log_initial_domain_size < 64);
            assert(num_rounds * (rate_log_inv + num_rounds) <= 64 * 128) by (nonlinear_arith)
                requires
                    num_rounds <= 64,
                    rate_log_inv <= 64,
            ;
        }
        let stopping_degree: usize = 1;
        let ood_samples: u32 = 2;
        let security_bits: u32 = 128;
        let repetition_schedule = build_schedule(security_bits, num_rounds, rate_log_inv);
        let params = StirParams {
            log_initial_domain_size,
            initial_degree_bound,
            folding_factor,
            num_rounds,
            rate_log_inv,
            security_bits,
            repetition_schedule,
            ood_samples,
            stopping_degree,
        };
        params
    }

    /// Replace the target security and recompute the harmonic schedule.
    pub fn with_security_bits(self, lambda: u32) -> (r: StirParams)
        requires
            self.num_rounds >= 1,
            self.rate_log_inv >= 1,
            self.num_rounds * (self.rate_log_inv + self.num_rounds) <= u32::MAX,
        ensures
            r == (StirParams {
                security_bits: lambda,
                repetition_schedule: r.repetition_schedule,
                ..self
            }),
            r.repetition_schedule@ == harmonic_schedule(lambda as nat, self.num_rounds as nat, self.rate_log_inv as nat),
            r.repetition_schedule@.len() == self.num_rounds + 1,
            forall|i: int| 0 <= i <= self.num_rounds ==> {
                let t = #[trigger] r.repetition_schedule@[i] as int;
                &&& t * (self.num_rounds * (self.rate_log_inv + i)) >= lambda
                &&& (t - 1) * (self.num_rounds * (self.rate_log_inv + i)) < lambda
            },
            forall|i: int, j: int|
                0 <= i <= j <= self.num_rounds ==> #[trigger] r.repetition_schedule@[j] <= #[trigger] r.repetition_schedule@[i],
    {
        let mut s = self;
        s.repetition_schedule = build_schedule(lambda, s.num_rounds, s.rate_log_inv);
        s.security_bits = lambda;
        s
    }

    /// Replace the round count.
    pub fn with_num_rounds(self, num_rounds: u32) -> (r: StirParams)
        ensures
            r == (StirParams { num_rounds, ..self }),
    {
        let mut s = self;
        s.num_rounds = num_rounds;
        s
    }

    /// Replace `log2(1 / rho_0)`.
    pub fn with_rate_log_inv(self, rate_log_inv: u32) -> (r: StirParams)
        ensures
            r == (StirParams { rate_log_inv, ..self }),
    {
        let mut s = self;
        s.rate_log_inv = rate_log_inv;
        s
    }

    /// Replace the number of OOD samples.
    pub fn with_ood_samples(self, ood_samples: u32) -> (r: StirParams)
        ensures
            r == (StirParams { ood_samples, ..self }),
    {
        let mut s = self;
        s.ood_samples = ood_samples;
        s
    }

    /// Replace the stopping degree.
    pub fn with_stopping_degree(self, stopping_degree: usize) -> (r: StirParams)
        ensures
            r == (StirParams { stopping_degree, ..self }),
    {
        let mut s = self;
        s.stopping_degree = stopping_degree;
        s
    }

    /// Replace the repetition schedule.
    pub fn with_repetition_schedule(self, schedule: Vec<u32>) -> (r: StirParams)
        ensures
            r == (StirParams { repetition_schedule: schedule, ..self }),
    {
        let mut s = self;
        s.repetition_schedule = schedule;
        s
    }

    /// The negated base-2 logarithm of each round's soundness error:
    /// round `i` errs with probability `rho_i^(t_i)`, `log2(1 / rho_i) = r + i`,
    /// so entry `i` is `t_i * (r + i)`.
    pub fn soundness_exponents(&self) -> (r: Vec<u64>)
        requires
            self.rate_log_inv + self.repetition_schedule@.len() <= u32::MAX,
        ensures
            r@.len() == self.repetition_schedule@.len(),
            forall|i: int|
                0 <= i < r@.len() ==> #[trigger] r@[i] == self.repetition_schedule@[i] * (self.rate_log_inv + i),
    {
        let n = self.repetition_schedule.len();
        let mut out: Vec<u64> = Vec::new();
        let mut i: usize = 0;
        while i < n
            invariant
                i <= n,
                n == self.repetition_schedule@.len(),
                self.rate_log_inv + n <= u32::MAX,
                out@.len() == i,
                forall|j: int|
                    0 <= j < i ==> #[trigger] out@[j] == self.repetition_schedule@[j] * (self.rate_log_inv + j),
            decreases n - i,
        {
            let t_i = self.repetition_schedule[i] as u64;
            let log_inv_rho_i = (self.rate_log_inv as u64) + (i as u64);
            assert(t_i * log_inv_rho_i <= u32::MAX * u32::MAX) by (nonlinear_arith)
                requires
                    t_i <= u32::MAX,
                    log_inv_rho_i <= u32::MAX,
            ;
            out.push(t_i * log_inv_rho_i);
            i = i + 1;
        }
        out
    }

    /// The degree bound of round `round`: `d_0 / k^round` for the folding
    /// rounds, `d_0` at round `0`, and the stopping degree at `num_rounds`.
    pub fn round_degree_bound(&self, round: u32) -> (r: usize)
        requires
            round <= self.num_rounds,
            pow(self.folding_factor as int, round as nat) <= usize::MAX,
            self.folding_factor >= 1,
        ensures
            r == crate::prover::round_degree(*self, round as nat),
    {
        if round == self.num_rounds {
            return self.stopping_degree;
        }
        let k = self.folding_factor as usize;
        let mut k_pow: usize = 1;
        let mut i: u32 = 0;
        proof {
            vstd::arithmetic::power::lemma_pow0(k as int);
        }
        while i < round
            invariant
                i <= round,
                k == self.folding_factor,
                k >= 1,
                k_pow == pow(k as int, i as nat),
                pow(k as int, round as nat) <= usize::MAX,
            decreases round - i,
        {
            proof {
                vstd::arithmetic::power::lemma_pow_adds(k as int, i as nat, 1);
                vstd::arithmetic::power::lemma_pow1(k as int);
                vstd::arithmetic::power::lemma_pow_increases(k as nat, (i + 1) as nat, round as nat);
            }
            k_pow = k_pow * k;
            i = i + 1;
        }
        proof {
            vstd::arithmetic::power::lemma_pow_positive(k as int, round as nat);
        }
        self.initial_degree_bound / k_pow
    }

    /// `log2 |L_i| = log2 |L_0| - round * (log2(k) - 1)`.
    pub fn round_log_domain_size(&self, round: u32) -> (r: u32)
        requires
            round <= self.num_rounds,
            tz32(self.folding_factor as nat) >= 1,
            round * (tz32(self.folding_factor as nat) - 1) <= self.log_initial_domain_size,
        ensures
            r == self.log_initial_domain_size - round * (tz32(self.folding_factor as nat) - 1),
    {
        let log_k_over_2 = trailing_zeros_u32(self.folding_factor) - 1;
        assert(round * log_k_over_2 <= self.log_initial_domain_size);
        let decrement = round * log_k_over_2;
        self.log_initial_domain_size - decrement
    }

    /// Check the parameter invariants; the error names the first one violated.
    pub fn validate(&self) -> (r: Result<(), &'static str>)
        requires
            self.log_initial_domain_size < usize::BITS,
        ensures
            match first_violation(*self) {
                None => r is Ok,
                Some(msg) => r == Err::<(), &'static str>(msg),
            },
    {
        if self.folding_factor < K_MIN {
            return Err("folding_factor < K_MIN (STIR requires k ≥ 4, paper §4.2)");
        }
        if !is_power_of_two_u64(self.folding_factor as u64) {
            return Err("folding_factor must be a power of 2 (FFT requires power-of-2 fold size)");
        }
        if self.num_rounds < 1 {
            return Err("num_rounds must be ≥ 1");
        }
        if self.repetition_schedule.len() as u64 != (self.num_rounds as u64) + 1 {
            return Err("repetition_schedule.len() must equal num_rounds + 1");
        }
        let domain_size: usize = pow2_usize(self.log_initial_domain_size);
        if self.initial_degree_bound > domain_size {
            return Err("initial_degree_bound > |L_0| (rate must be ≤ 1)");
        }
        if self.stopping_degree < 1 {
            return Err("stopping_degree must be ≥ 1");
        }
        if self.stopping_degree > self.initial_degree_bound {
            return Err("stopping_degree must be ≤ initial_degree_bound");
        }
        if self.rate_log_inv < 1 {
            return Err("rate_log_inv must be ≥ 1 (rate strictly < 1)");
        }
        let log_d0: u32 = log2_usize(self.initial_degree_bound);
        if self.rate_log_inv as u64 + log_d0 as u64 != self.log_initial_domain_size as u64 {
            return Err("rate_log_inv must equal log2(|L_0| / d_0)");
        }
        if self.security_bits < 1 {
            return Err("security_bits must be ≥ 1");
        }
        if self.ood_samples < 1 {
            return Err("ood_samples must be ≥ 1 (s = 0 disables OOD collapse)");
        }
        Ok(())
    }
}

} // verus!
