//! The Goldilocks prime field `F_p` with `p = 2^64 - 2^32 + 1`.
//!
//! Every `Fp` value is canonical: it stores a `u64` strictly below
//! `MODULUS`. The mathematical model of an element is its value `val()`,
//! a natural number below `MODULUS`; every operation is specified as the
//! corresponding integer operation reduced modulo `MODULUS`.
use rand::rngs::StdRng;
use rand::Rng;
use crate::primality::is_order;
use crate::arith::{lemma_pow_mod_is_pow, lemma_pow_mod_step, lemma_pow_mod_zero, lemma_pow_congruent, lemma_square_multiply_step, pow_mod};
use std::ops::{Add, Mul, Neg, Sub};
use vstd::std_specs::ops::{AddSpec, MulSpec, NegSpec, SubSpec};
use vstd::arithmetic::div_mod::{lemma_mod_twice, lemma_mul_mod_noop_general, lemma_small_mod};
use vstd::arithmetic::power::{lemma_pow0, lemma_pow1, lemma_pow_multiplies, pow};
use vstd::arithmetic::power2::{lemma_pow2, lemma_pow2_adds, lemma_pow2_pos, pow2};
use vstd::bits::lemma_u64_shr_is_div;
use vstd::prelude::*;

verus! {

/// The Goldilocks prime modulus: `p = 2^64 - 2^32 + 1 = 0xFFFFFFFF00000001`.
pub const MODULUS: u64 = 0xFFFFFFFF00000001;

/// A multiplicative generator of `F_p^*`, used to derive roots of unity.
pub const MULTIPLICATIVE_GENERATOR: u64 = 7;

/// Two-adicity of `p - 1`: the largest `k` with `2^k | p - 1`.
pub const TWO_ADICITY: u32 = 32;

/// `x` reduced into `[0, p)`.
pub open spec fn fmod(x: int) -> int {
    x % (MODULUS as int)
}

/// `p - 1` as a mathematical integer.
pub open spec fn group_order() -> nat {
    (MODULUS - 1) as nat
}

/// The seeded random generator of the `rand` crate, carried through opaquely.
#[verifier::external_type_specification]
#[verifier::external_body]
pub struct ExStdRng(StdRng);

/// One uniformly random `u64` drawn from `rng` (`rand`'s `Rng::gen::<u64>`).
/// Nothing is stated of the word: it depends on the generator's state.
#[verifier::external_body]
fn random_word(rng: &mut StdRng) -> u64 {
    rng.gen::<u64>()
}

/// A field element of `F_p` (Goldilocks). Always reduced modulo `MODULUS`.
#[derive(Clone, Copy, Debug, PartialEq, Eq, Hash, Structural)]
pub struct Fp(u64);

impl Fp {
    /// The representation invariant: the stored word is below `MODULUS`.
    #[verifier::type_invariant]
    pub closed spec fn canonical(self) -> bool {
        self.0 < MODULUS
    }

    /// The value of the element, a natural number below `MODULUS`.
    pub closed spec fn val(self) -> nat {
        self.0 as nat
    }

    /// The element whose value is `v` (meaningful for `v < MODULUS`).
    pub closed spec fn from_val(v: nat) -> Fp {
        Fp(v as u64)
    }

    /// Construct a field element from an arbitrary `u64`, reducing mod `MODULUS`.
    pub fn new(value: u64) -> (r: Fp)
        ensures
            r.val() == value % MODULUS,
    {
        if value < MODULUS {
            Fp(value)
        } else {
            Fp(value - MODULUS)
        }
    }

    /// A uniformly random element: draws `u64` words from `rng` and keeps
    /// the first one below `MODULUS` (a word is refused with probability
    /// about `2^-32`). Should every one of `2^64 - 1` draws be refused, the
    /// last word is reduced modulo `MODULUS` instead.
    pub fn random(rng: &mut StdRng) -> (r: Fp)
        ensures
            r.val() < MODULUS,
    {
        let mut attempts: u64 = 0;
        while attempts < 0xFFFF_FFFF_FFFF_FFFE
            invariant
                attempts <= 0xFFFF_FFFF_FFFF_FFFE,
            decreases 0xFFFF_FFFF_FFFF_FFFEu64 - attempts,
        {
            let w = random_word(rng);
            match Fp::from_word(w) {
                Some(x) => {
                    return x;
                },
                None => {},
            }
            attempts = attempts + 1;
        }
        Fp::new(random_word(rng))
    }

    /// The rejection step of sampling: a drawn word is kept as an element
    /// exactly when it is below `MODULUS`.
    pub fn from_word(w: u64) -> (r: Option<Fp>)
        ensures
            (r is Some) == (w < MODULUS),
            r matches Some(x) ==> x.val() == w,
    {
        if w < MODULUS {
            Some(Fp(w))
        } else {
            None
        }
    }

    /// The additive identity, `0`.
    pub fn zero() -> (r: Fp)
        ensures
            r.val() == 0,
    {
        Fp(0)
    }

    /// The multiplicative identity, `1`.
    pub fn one() -> (r: Fp)
        ensures
            r.val() == 1,
    {
        Fp(1)
    }

    /// Get the underlying `u64` representation.
    pub fn as_u64(self) -> (r: u64)
        ensures
            r == self.val(),
            r < MODULUS,
    {
        proof {
            use_type_invariant(&self);
        }
        self.0
    }

    /// Exponentiation by squaring: returns `self^exp` mod `MODULUS`.
    pub fn pow(self, exp: u64) -> (r: Fp)
        ensures
            r.val() == pow(self.val() as int, exp as nat) % (MODULUS as int),
    {
        let mut result = Fp::one();
        let mut base = self;
        let mut e = exp;
        proof {
            lemma_pow0(self.val() as int);
        }
        while e > 0
            invariant
                (result.val() * pow(base.val() as int, e as nat)) % (MODULUS as int) == pow(
                    self.val() as int,
                    exp as nat,
                ) % (MODULUS as int),
            decreases e,
        {
            let ghost r0 = result.val() as int;
            let ghost b0 = base.val() as int;
            let ghost e0 = e as nat;
            proof {
                lemma_square_multiply_step(r0, b0, e0, MODULUS as int);
                assert(e & 1 == e % 2) by (bit_vector);
                assert(e >> 1 == e / 2) by (bit_vector);
            }
            if e & 1 == 1 {
                result = result * base;
            }
            base = base * base;
            e = e >> 1;
        }
        proof {
            lemma_pow0(base.val() as int);
            use_type_invariant(&result);
            lemma_small_mod(result.val(), MODULUS as nat);
        }
        result
    }

    /// Multiplicative inverse via Fermat's little theorem: `self^(p-2)`.
    ///
    /// Returns `None` exactly when `self` is zero; otherwise
    /// `self * inverse = 1`.
    pub fn inverse(self) -> (r: Option<Fp>)
        ensures
            self.val() == 0 <==> r is None,
            r matches Some(y) ==> y.val() == pow(self.val() as int, (MODULUS - 2) as nat) % (
            MODULUS as int),
            r matches Some(y) ==> (self.val() * y.val()) % (MODULUS as nat) == 1,
    {
        if self == Fp::zero() {
            None
        } else {
            proof {
                use_type_invariant(&self);
                lemma_small_mod(self.val(), MODULUS as nat);
                crate::generator::lemma_inv_val_correct(self.val() as int);
            }
            Some(self.pow(MODULUS - 2))
        }
    }

    /// Return a primitive `2^log_n`-th root of unity: `7^((p - 1) / 2^log_n)`.
    ///
    /// For `log_n >= 1` its `2^(log_n - 1)`-th power is `-1`, and its order
    /// is exactly `2^log_n`.
    pub fn primitive_root_of_unity(log_n: u32) -> (r: Fp)
        requires
            log_n <= TWO_ADICITY,
        ensures
            r.val() == pow(
                MULTIPLICATIVE_GENERATOR as int,
                group_order() / pow2(log_n as nat),
            ) % (MODULUS as int),
            log_n >= 1 ==> pow(r.val() as int, pow2((log_n - 1) as nat)) % (MODULUS as int) == (
            MODULUS - 1),
            pow(r.val() as int, pow2(log_n as nat)) % (MODULUS as int) == 1,
            is_order(r.val() as int, MODULUS as int, pow2(log_n as nat)),
    {
        let exponent = (MODULUS - 1) >> log_n;
        proof {
            lemma_u64_shr_is_div((MODULUS - 1) as u64, log_n as u64);
            lemma_root_of_unity_facts(log_n as nat);
            crate::generator::lemma_root_of_unity_order(log_n as nat);
        }
        Fp::new(MULTIPLICATIVE_GENERATOR).pow(exponent)
    }
}

/// `p - 1 = 2^32 * (2^32 - 1)`.
proof fn lemma_group_order_factor()
    ensures
        group_order() == pow2(32) * 4294967295,
{
    vstd::arithmetic::power2::lemma2_to64();
}

/// For `k <= 32`, `(p-1)/2^k * 2^k = p - 1`.
pub proof fn lemma_group_order_div(k: nat)
    requires
        k <= 32,
    ensures
        (group_order() / pow2(k)) * pow2(k) == group_order(),
        group_order() / pow2(k) == pow2((32 - k) as nat) * 4294967295,
{
    lemma_group_order_factor();
    lemma_pow2_adds((32 - k) as nat, k);
    lemma_pow2_pos(k);
    let a = pow2((32 - k) as nat) * 4294967295;
    assert(group_order() == a * pow2(k)) by (nonlinear_arith)
        requires
            group_order() == pow2(32) * 4294967295,
            pow2(32) == pow2((32 - k) as nat) * pow2(k),
            a == pow2((32 - k) as nat) * 4294967295,
    ;
    vstd::arithmetic::div_mod::lemma_div_multiples_vanish(a as int, pow2(k) as int);
    assert(pow2(k) * a == a * pow2(k)) by (nonlinear_arith);
}

/// `7^((p-1)/2) = -1` and `7^(p-1) = 1` modulo `p`.
pub proof fn lemma_generator_half_order()
    ensures
        pow(MULTIPLICATIVE_GENERATOR as int, group_order() / 2) % (MODULUS as int) == MODULUS - 1,
        pow(MULTIPLICATIVE_GENERATOR as int, group_order()) % (MODULUS as int) == 1,
{
    lemma_pow_mod_zero(7, 18446744069414584321);
    lemma_pow_mod_step(7, 1, 18446744069414584321, 1);
    assert(pow_mod(7, 1, 18446744069414584321) == 7);
    lemma_pow_mod_step(7, 3, 18446744069414584321, 7);
    assert(pow_mod(7, 3, 18446744069414584321) == 343);
    lemma_pow_mod_step(7, 7, 18446744069414584321, 343);
    assert(pow_mod(7, 7, 18446744069414584321) == 823543);
    lemma_pow_mod_step(7, 15, 18446744069414584321, 823543);
    assert(pow_mod(7, 15, 18446744069414584321) == 4747561509943);
    lemma_pow_mod_step(7, 31, 18446744069414584321, 4747561509943);
    assert(pow_mod(7, 31, 18446744069414584321) == 11074261478625843323);
    lemma_pow_mod_step(7, 63, 18446744069414584321, 11074261478625843323);
    assert(pow_mod(7, 63, 18446744069414584321) == 12148266161370408270);
    lemma_pow_mod_step(7, 127, 18446744069414584321, 12148266161370408270);
    assert(pow_mod(7, 127, 18446744069414584321) == 7007601668316978083);
    lemma_pow_mod_step(7, 255, 18446744069414584321, 7007601668316978083);
    assert(pow_mod(7, 255, 18446744069414584321) == 8125271997680889877);
    lemma_pow_mod_step(7, 511, 18446744069414584321, 8125271997680889877);
    assert(pow_mod(7, 511, 18446744069414584321) == 2624486902016877951);
    lemma_pow_mod_step(7, 1023, 18446744069414584321, 2624486902016877951);
    assert(pow_mod(7, 1023, 18446744069414584321) == 8253119735826302939);
    lemma_pow_mod_step(7, 2047, 18446744069414584321, 8253119735826302939);
    assert(pow_mod(7, 2047, 18446744069414584321) == 3543566522599720475);
    lemma_pow_mod_step(7, 4095, 18446744069414584321, 3543566522599720475);
    assert(pow_mod(7, 4095, 18446744069414584321) == 11981551684735969599);
    lemma_pow_mod_step(7, 8191, 18446744069414584321, 11981551684735969599);
    assert(pow_mod(7, 8191, 18446744069414584321) == 10062120588441922115);
    lemma_pow_mod_step(7, 16383, 18446744069414584321, 10062120588441922115);
    assert(pow_mod(7, 16383, 18446744069414584321) == 10485806445487905393);
    lemma_pow_mod_step(7, 32767, 18446744069414584321, 10485806445487905393);
    assert(pow_mod(7, 32767, 18446744069414584321) == 4139485063330164956);
    lemma_pow_mod_step(7, 65535, 18446744069414584321, 4139485063330164956);
    assert(pow_mod(7, 65535, 18446744069414584321) == 12134830135347446949);
    lemma_pow_mod_step(7, 131071, 18446744069414584321, 12134830135347446949);
    assert(pow_mod(7, 131071, 18446744069414584321) == 4326791766630348883);
    lemma_pow_mod_step(7, 262143, 18446744069414584321, 4326791766630348883);
    assert(pow_mod(7, 262143, 18446744069414584321) == 206761543466863628);
    lemma_pow_mod_step(7, 524287, 18446744069414584321, 206761543466863628);
    assert(pow_mod(7, 524287, 18446744069414584321) == 10086585273483141421);
    lemma_pow_mod_step(7, 1048575, 18446744069414584321, 10086585273483141421);
    assert(pow_mod(7, 1048575, 18446744069414584321) == 1855730417186139594);
    lemma_pow_mod_step(7, 2097151, 18446744069414584321, 1855730417186139594);
    assert(pow_mod(7, 2097151, 18446744069414584321) == 7626447102712710903);
    lemma_pow_mod_step(7, 4194303, 18446744069414584321, 7626447102712710903);
    assert(pow_mod(7, 4194303, 18446744069414584321) == 7790920094560990216);
    lemma_pow_mod_step(7, 8388607, 18446744069414584321, 7790920094560990216);
    assert(pow_mod(7, 8388607, 18446744069414584321) == 5901922255895126089);
    lemma_pow_mod_step(7, 16777215, 18446744069414584321, 5901922255895126089);
    assert(pow_mod(7, 16777215, 18446744069414584321) == 8935258787870022506);
    lemma_pow_mod_step(7, 33554431, 18446744069414584321, 8935258787870022506);
    assert(pow_mod(7, 33554431, 18446744069414584321) == 13093775858033092690);
    lemma_pow_mod_step(7, 67108863, 18446744069414584321, 13093775858033092690);
    assert(pow_mod(7, 67108863, 18446744069414584321) == 11243737384857129666);
    lemma_pow_mod_step(7, 134217727, 18446744069414584321, 11243737384857129666);
    assert(pow_mod(7, 134217727, 18446744069414584321) == 2063617152444052883);
    lemma_pow_mod_step(7, 268435455, 18446744069414584321, 2063617152444052883);
    assert(pow_mod(7, 268435455, 18446744069414584321) == 13064848991504552222);
    lemma_pow_mod_step(7, 536870911, 18446744069414584321, 13064848991504552222);
    assert(pow_mod(7, 536870911, 18446744069414584321) == 16593403251012455084);
    lemma_pow_mod_step(7, 1073741823, 18446744069414584321, 16593403251012455084);
    assert(pow_mod(7, 1073741823, 18446744069414584321) == 5859133952941131217);
    lemma_pow_mod_step(7, 2147483647, 18446744069414584321, 5859133952941131217);
    assert(pow_mod(7, 2147483647, 18446744069414584321) == 15659105665374529263);
    lemma_pow_mod_step(7, 4294967295, 18446744069414584321, 15659105665374529263);
    assert(pow_mod(7, 4294967295, 18446744069414584321) == 1753635133440165772);
    lemma_pow_mod_step(7, 8589934590, 18446744069414584321, 1753635133440165772);
    assert(pow_mod(7, 8589934590, 18446744069414584321) == 4614640910117430873);
    lemma_pow_mod_step(7, 17179869180, 18446744069414584321, 4614640910117430873);
    assert(pow_mod(7, 17179869180, 18446744069414584321) == 9123114210336311365);
    lemma_pow_mod_step(7, 34359738360, 18446744069414584321, 9123114210336311365);
    assert(pow_mod(7, 34359738360, 18446744069414584321) == 16116352524544190054);
    lemma_pow_mod_step(7, 68719476720, 18446744069414584321, 16116352524544190054);
    assert(pow_mod(7, 68719476720, 18446744069414584321) == 6414415596519834757);
    lemma_pow_mod_step(7, 137438953440, 18446744069414584321, 6414415596519834757);
    assert(pow_mod(7, 137438953440, 18446744069414584321) == 1213594585890690845);
    lemma_pow_mod_step(7, 274877906880, 18446744069414584321, 1213594585890690845);
    assert(pow_mod(7, 274877906880, 18446744069414584321) == 17096174751763063430);
    lemma_pow_mod_step(7, 549755813760, 18446744069414584321, 17096174751763063430);
    assert(pow_mod(7, 549755813760, 18446744069414584321) == 5456943929260765144);
    lemma_pow_mod_step(7, 1099511627520, 18446744069414584321, 5456943929260765144);
    assert(pow_mod(7, 1099511627520, 18446744069414584321) == 9713644485405565297);
    lemma_pow_mod_step(7, 2199023255040, 18446744069414584321, 9713644485405565297);
    assert(pow_mod(7, 2199023255040, 18446744069414584321) == 16905767614792059275);
    lemma_pow_mod_step(7, 4398046510080, 18446744069414584321, 16905767614792059275);
    assert(pow_mod(7, 4398046510080, 18446744069414584321) == 5416168637041100469);
    lemma_pow_mod_step(7, 8796093020160, 18446744069414584321, 5416168637041100469);
    assert(pow_mod(7, 8796093020160, 18446744069414584321) == 17654865857378133588);
    lemma_pow_mod_step(7, 17592186040320, 18446744069414584321, 17654865857378133588);
    assert(pow_mod(7, 17592186040320, 18446744069414584321) == 3511170319078647661);
    lemma_pow_mod_step(7, 35184372080640, 18446744069414584321, 3511170319078647661);
    assert(pow_mod(7, 35184372080640, 18446744069414584321) == 18146160046829613826);
    lemma_pow_mod_step(7, 70368744161280, 18446744069414584321, 18146160046829613826);
    assert(pow_mod(7, 70368744161280, 18446744069414584321) == 9306717745644682924);
    lemma_pow_mod_step(7, 140737488322560, 18446744069414584321, 9306717745644682924);
    assert(pow_mod(7, 140737488322560, 18446744069414584321) == 12380578893860276750);
    lemma_pow_mod_step(7, 281474976645120, 18446744069414584321, 12380578893860276750);
    assert(pow_mod(7, 281474976645120, 18446744069414584321) == 6115771955107415310);
    lemma_pow_mod_step(7, 562949953290240, 18446744069414584321, 6115771955107415310);
    assert(pow_mod(7, 562949953290240, 18446744069414584321) == 17776499369601055404);
    lemma_pow_mod_step(7, 1125899906580480, 18446744069414584321, 17776499369601055404);
    assert(pow_mod(7, 1125899906580480, 18446744069414584321) == 16207902636198568418);
    lemma_pow_mod_step(7, 2251799813160960, 18446744069414584321, 16207902636198568418);
    assert(pow_mod(7, 2251799813160960, 18446744069414584321) == 1532612707718625687);
    lemma_pow_mod_step(7, 4503599626321920, 18446744069414584321, 1532612707718625687);
    assert(pow_mod(7, 4503599626321920, 18446744069414584321) == 17492915097719143606);
    lemma_pow_mod_step(7, 9007199252643840, 18446744069414584321, 17492915097719143606);
    assert(pow_mod(7, 9007199252643840, 18446744069414584321) == 455906449640507599);
    lemma_pow_mod_step(7, 18014398505287680, 18446744069414584321, 455906449640507599);
    assert(pow_mod(7, 18014398505287680, 18446744069414584321) == 11353340290879379826);
    lemma_pow_mod_step(7, 36028797010575360, 18446744069414584321, 11353340290879379826);
    assert(pow_mod(7, 36028797010575360, 18446744069414584321) == 1803076106186727246);
    lemma_pow_mod_step(7, 72057594021150720, 18446744069414584321, 1803076106186727246);
    assert(pow_mod(7, 72057594021150720, 18446744069414584321) == 13797081185216407910);
    lemma_pow_mod_step(7, 144115188042301440, 18446744069414584321, 13797081185216407910);
    assert(pow_mod(7, 144115188042301440, 18446744069414584321) == 17870292113338400769);
    lemma_pow_mod_step(7, 288230376084602880, 18446744069414584321, 17870292113338400769);
    assert(pow_mod(7, 288230376084602880, 18446744069414584321) == 549755813888);
    lemma_pow_mod_step(7, 576460752169205760, 18446744069414584321, 549755813888);
    assert(pow_mod(7, 576460752169205760, 18446744069414584321) == 70368744161280);
    lemma_pow_mod_step(7, 1152921504338411520, 18446744069414584321, 70368744161280);
    assert(pow_mod(7, 1152921504338411520, 18446744069414584321) == 17293822564807737345);
    lemma_pow_mod_step(7, 2305843008676823040, 18446744069414584321, 17293822564807737345);
    assert(pow_mod(7, 2305843008676823040, 18446744069414584321) == 18446744069397807105);
    lemma_pow_mod_step(7, 4611686017353646080, 18446744069414584321, 18446744069397807105);
    assert(pow_mod(7, 4611686017353646080, 18446744069414584321) == 281474976710656);
    lemma_pow_mod_step(7, 9223372034707292160, 18446744069414584321, 281474976710656);
    assert(pow_mod(7, 9223372034707292160, 18446744069414584321) == 18446744069414584320);
    lemma_pow_mod_step(7, 18446744069414584320, 18446744069414584321, 18446744069414584320);
    assert(pow_mod(7, 18446744069414584320, 18446744069414584321) == 1);
    lemma_pow_mod_is_pow(7, 9223372034707292160, 18446744069414584321);
    lemma_pow_mod_is_pow(7, 18446744069414584320, 18446744069414584321);
}

/// The powers of the `2^k`-th root `7^((p-1)/2^k)` that give `-1` and `1`.
pub proof fn lemma_root_of_unity_facts(k: nat)
    requires
        k <= 32,
    ensures
        ({
            let w = pow(7, group_order() / pow2(k)) % (MODULUS as int);
            &&& (k >= 1 ==> pow(w, pow2((k - 1) as nat)) % (MODULUS as int) == MODULUS - 1)
            &&& pow(w, pow2(k)) % (MODULUS as int) == 1
        }),
{
    let m = MODULUS as int;
    let e = group_order() / pow2(k);
    let w = pow(7, e) % m;
    lemma_generator_half_order();
    lemma_group_order_div(k);
    lemma_mod_twice(pow(7, e), m);
    lemma_pow_congruent(w, pow(7, e), pow2(k), m);
    lemma_pow_multiplies(7, e, pow2(k));
    if k >= 1 {
        let h = pow2((k - 1) as nat);
        lemma_pow2_adds((k - 1) as nat, 1);
        vstd::arithmetic::power2::lemma2_to64();
        assert(pow2(k) == h * 2);
        lemma_pow_congruent(w, pow(7, e), h, m);
        lemma_pow_multiplies(7, e, h);
        assert(e * pow2(k) == group_order());
        assert(e * h * 2 == group_order()) by (nonlinear_arith)
            requires
                e * pow2(k) == group_order(),
                pow2(k) == h * 2,
        ;
        assert(e * h == group_order() / 2);
    }
}

/// Facts every caller may use about the value model.
pub proof fn lemma_canonical(x: Fp)
    requires
        x.canonical(),
    ensures
        x.val() < MODULUS,
{
}

/// `from_val` inverts `val` on canonical values.
pub broadcast proof fn lemma_from_val(v: nat)
    requires
        v < MODULUS,
    ensures
        #[trigger] Fp::from_val(v).val() == v,
{
}

/// Two elements are equal exactly when their values are.
pub broadcast proof fn lemma_val_eq(a: Fp, b: Fp)
    ensures
        (#[trigger] a.val() == #[trigger] b.val()) == (a == b),
{
}

/// `(a + b) - b == a`: subtraction undoes addition.
pub proof fn lemma_add_then_sub(a: Fp, b: Fp)
    requires
        a.val() < MODULUS,
        b.val() < MODULUS,
    ensures
        a.add_spec(b).sub_spec(b) == a,
{
    let m = MODULUS as int;
    let s = (a.val() + b.val()) % (MODULUS as nat);
    lemma_from_val(s);
    let d = (s - b.val()) % m;
    vstd::arithmetic::div_mod::lemma_mod_bound(s - b.val(), m);
    lemma_from_val(d as nat);
    crate::arith::lemma_mod_sub_congr(s as int, (a.val() + b.val()) as int, b.val() as int, b.val() as int, m);
    lemma_mod_twice((a.val() + b.val()) as int, m);
    lemma_small_mod(a.val(), MODULUS as nat);
    lemma_small_mod(b.val(), MODULUS as nat);
    lemma_val_eq(a.add_spec(b).sub_spec(b), a);
}

/// `a + (-a) == 0`: negation gives the additive inverse.
pub proof fn lemma_add_neg(a: Fp)
    requires
        a.val() < MODULUS,
    ensures
        a.add_spec(a.neg_spec()) == Fp::from_val(0),
{
    let m = MODULUS as int;
    let n = (0 - a.val()) % m;
    vstd::arithmetic::div_mod::lemma_mod_bound(0 - a.val(), m);
    lemma_from_val(n as nat);
    crate::arith::lemma_mod_add_congr(a.val() as int, a.val() as int, n, 0 - a.val(), m);
    lemma_mod_twice(0 - a.val(), m);
    lemma_small_mod(a.val(), MODULUS as nat);
    lemma_small_mod(0, MODULUS as nat);
    lemma_from_val(0);
    lemma_from_val((a.val() + n) as nat % (MODULUS as nat));
    lemma_val_eq(a.add_spec(a.neg_spec()), Fp::from_val(0));
}

/// `a + 0 == a` and `a * 1 == a`.
pub proof fn lemma_identities(a: Fp)
    requires
        a.val() < MODULUS,
    ensures
        a.add_spec(Fp::from_val(0)) == a,
        a.mul_spec(Fp::from_val(1)) == a,
{
    lemma_from_val(0);
    lemma_from_val(1);
    lemma_small_mod(a.val(), MODULUS as nat);
    lemma_from_val(a.val());
    lemma_val_eq(a.add_spec(Fp::from_val(0)), a);
    lemma_val_eq(a.mul_spec(Fp::from_val(1)), a);
}

impl vstd::std_specs::ops::AddSpecImpl for Fp {
    open spec fn obeys_add_spec() -> bool {
        true
    }

    open spec fn add_req(self, rhs: Fp) -> bool {
        true
    }

    open spec fn add_spec(self, rhs: Fp) -> Fp {
        Fp::from_val((self.val() + rhs.val()) % (MODULUS as nat))
    }
}

impl Add for Fp {
    type Output = Fp;

    /// Addition modulo `MODULUS`.
    fn add(self, rhs: Fp) -> (r: Fp) {
        proof {
            use_type_invariant(&self);
            use_type_invariant(&rhs);
        }
        let s: u128 = self.0 as u128 + rhs.0 as u128;
        if s >= MODULUS as u128 {
            Fp((s - MODULUS as u128) as u64)
        } else {
            Fp(s as u64)
        }
    }
}

impl vstd::std_specs::ops::SubSpecImpl for Fp {
    open spec fn obeys_sub_spec() -> bool {
        true
    }

    open spec fn sub_req(self, rhs: Fp) -> bool {
        true
    }

    open spec fn sub_spec(self, rhs: Fp) -> Fp {
        Fp::from_val(((self.val() - rhs.val()) % (MODULUS as int)) as nat)
    }
}

impl Sub for Fp {
    type Output = Fp;

    /// Subtraction modulo `MODULUS`.
    fn sub(self, rhs: Fp) -> (r: Fp) {
        proof {
            use_type_invariant(&self);
            use_type_invariant(&rhs);
        }
        if self.0 >= rhs.0 {
            Fp(self.0 - rhs.0)
        } else {
            Fp(MODULUS - (rhs.0 - self.0))
        }
    }
}

impl vstd::std_specs::ops::MulSpecImpl for Fp {
    open spec fn obeys_mul_spec() -> bool {
        true
    }

    open spec fn mul_req(self, rhs: Fp) -> bool {
        true
    }

    open spec fn mul_spec(self, rhs: Fp) -> Fp {
        Fp::from_val((self.val() * rhs.val()) % (MODULUS as nat))
    }
}

impl Mul for Fp {
    type Output = Fp;

    /// Multiplication modulo `MODULUS`, through a `u128` intermediate.
    fn mul(self, rhs: Fp) -> (r: Fp) {
        proof {
            use_type_invariant(&self);
            use_type_invariant(&rhs);
        }
        proof {
            let a = self.0 as u128;
            let b = rhs.0 as u128;
            assert(a * b < 0x1_0000_0000_0000_0000_0000_0000_0000_0000) by (nonlinear_arith)
                requires
                    a < 0x1_0000_0000_0000_0000,
                    b < 0x1_0000_0000_0000_0000,
            ;
        }
        let product: u128 = (self.0 as u128) * (rhs.0 as u128);
        let reduced: u128 = product % (MODULUS as u128);
        Fp(reduced as u64)
    }
}

impl vstd::std_specs::ops::NegSpecImpl for Fp {
    open spec fn obeys_neg_spec() -> bool {
        true
    }

    open spec fn neg_req(self) -> bool {
        true
    }

    open spec fn neg_spec(self) -> Fp {
        Fp::from_val(((0 - self.val()) % (MODULUS as int)) as nat)
    }
}

impl Neg for Fp {
    type Output = Fp;

    /// Negation modulo `MODULUS`; `-0 = 0`.
    fn neg(self) -> (r: Fp) {
        proof {
            use_type_invariant(&self);
        }
        if self.0 == 0 {
            Fp(0)
        } else {
            Fp(MODULUS - self.0)
        }
    }
}

} // verus!
