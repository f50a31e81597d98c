//! The round-by-round evaluation domains of STIR: `L_0` is the subgroup of
//! size `2^log|L_0|`, and `L_i` (for `i >= 1`) is the coset of size
//! `2^log|L_i|` with offset `g^(2^(i-1))`, `g` the multiplicative generator.
use crate::domain::{coset_domain, root_of_unity_val, EvaluationDomain};
use crate::field::{fmod, group_order, lemma_from_val, lemma_group_order_div, lemma_generator_half_order, Fp, MODULUS, MULTIPLICATIVE_GENERATOR, TWO_ADICITY};
use crate::fft::is_pow2;
use crate::params::{tz32, StirParams};
use vstd::arithmetic::div_mod::{lemma_mul_mod_noop_general, lemma_small_mod};
use vstd::arithmetic::power::{lemma_pow_adds, lemma_pow_mod_noop, lemma_pow_multiplies, pow};
use vstd::arithmetic::power2::pow2;
use vstd::prelude::*;

verus! {

/// `log2 |L_i|` for the given parameters.
pub open spec fn round_log_size(p: StirParams, i: nat) -> nat {
    (p.log_initial_domain_size - i * (tz32(p.folding_factor as nat) - 1)) as nat
}

/// The offset value of `L_i` (`1` for `i = 0`, else `g^(2^(i-1))`).
pub open spec fn round_offset(i: nat) -> int {
    if i == 0 {
        1
    } else {
        fmod(pow(MULTIPLICATIVE_GENERATOR as int, pow2((i - 1) as nat)))
    }
}

/// The domain `L_i` of round `i`: size `2^(log2 |L_i|)`, offset `7^(2^(i-1))`.
pub open spec fn round_dom(p: StirParams, i: nat) -> EvaluationDomain {
    coset_domain(round_log_size(p, i), round_offset(i) as nat)
}

/// Every round's domain `L_i` (`i <= M`) of a fitting chain is a
/// well-formed domain of the round's size and offset.
pub proof fn lemma_round_dom_wf(p: StirParams, i: nat)
    requires
        domains_fit(p),
        i <= p.num_rounds,
    ensures
        round_dom(p, i).wf(),
        round_dom(p, i).spec_log_size() == round_log_size(p, i),
        round_dom(p, i).spec_size() == pow2(round_log_size(p, i)),
        round_dom(p, i).spec_offset().val() == round_offset(i),
{
    assert(i * (tz32(p.folding_factor as nat) - 1) <= p.num_rounds * (tz32(p.folding_factor as nat) - 1))
        by (nonlinear_arith)
        requires
            i <= p.num_rounds,
            tz32(p.folding_factor as nat) >= 1,
    ;
    let l = round_log_size(p, i);
    if l < p.log_initial_domain_size {
        vstd::arithmetic::power2::lemma_pow2_strictly_increases(l, p.log_initial_domain_size as nat);
    }
    if i > 0 {
        lemma_generator_power_nonzero(pow2((i - 1) as nat));
        vstd::arithmetic::div_mod::lemma_mod_bound(
            pow(MULTIPLICATIVE_GENERATOR as int, pow2((i - 1) as nat)),
            MODULUS as int,
        );
    }
    crate::domain::lemma_coset_domain(l, round_offset(i) as nat);
}

/// The parameters admit the domain chain: every `L_i` has a non-negative
/// size exponent of at most `32` that fits a word.
pub open spec fn domains_fit(p: StirParams) -> bool {
    &&& tz32(p.folding_factor as nat) >= 1
    &&& p.num_rounds * (tz32(p.folding_factor as nat) - 1) <= p.log_initial_domain_size
    &&& p.log_initial_domain_size <= TWO_ADICITY
    &&& pow2(p.log_initial_domain_size as nat) <= usize::MAX
    &&& p.num_rounds < usize::MAX
}

/// The chain `L_0, L_1, ..., L_M`.
pub struct StirDomain {
    /// `round_domains[i] = L_i`.
    pub round_domains: Vec<EvaluationDomain>,
}

/// Each round shrinks the domain by the factor `k / 2`:
/// `|L_i| = 2^(log2 k - 1) * |L_{i+1}|` (for `k = 4`, the domains halve).
pub proof fn lemma_domains_shrink(p: StirParams, i: nat)
    requires
        domains_fit(p),
        i < p.num_rounds,
    ensures
        pow2(round_log_size(p, i)) == pow2((tz32(p.folding_factor as nat) - 1) as nat) * pow2(
            round_log_size(p, i + 1),
        ),
        round_log_size(p, i) == (tz32(p.folding_factor as nat) - 1) + round_log_size(p, i + 1),
        round_log_size(p, i) <= p.log_initial_domain_size,
{
    let a1 = (tz32(p.folding_factor as nat) - 1) as nat;
    assert((i + 1) * a1 <= p.num_rounds * a1) by (nonlinear_arith)
        requires
            i + 1 <= p.num_rounds,
    ;
    assert((i + 1) * a1 == i * a1 + a1) by (nonlinear_arith);
    assert(round_log_size(p, i) == a1 + round_log_size(p, i + 1));
    vstd::arithmetic::power2::lemma_pow2_adds(a1, round_log_size(p, i + 1));
}

/// The generator of `L_{i+1}` is the `(k / 2)`-th power of the generator of
/// `L_i` (for `k = 4`, generators square from round to round).
pub proof fn lemma_generators_chain(p: StirParams, i: nat)
    requires
        domains_fit(p),
        i < p.num_rounds,
    ensures
        root_of_unity_val(round_log_size(p, i + 1)) == pow(
            root_of_unity_val(round_log_size(p, i)),
            pow2((tz32(p.folding_factor as nat) - 1) as nat),
        ) % (MODULUS as int),
{
    let a1 = (tz32(p.folding_factor as nat) - 1) as nat;
    let n = round_log_size(p, i);
    let n1 = round_log_size(p, i + 1);
    let m = MODULUS as int;
    let g = MULTIPLICATIVE_GENERATOR as int;
    lemma_domains_shrink(p, i);
    assert((i + 1) * a1 == i * a1 + a1) by (nonlinear_arith);
    assert(n == a1 + n1);
    assert(n <= 32);
    lemma_group_order_div(n);
    lemma_group_order_div(n1);
    vstd::arithmetic::power2::lemma_pow2_adds((32 - n) as nat, a1);
    assert((32 - n) as nat + a1 == (32 - n1) as nat);
    let e = group_order() / pow2(n);
    let e1 = group_order() / pow2(n1);
    assert(e1 == e * pow2(a1)) by (nonlinear_arith)
        requires
            e == pow2((32 - n) as nat) * 4294967295,
            e1 == pow2((32 - n1) as nat) * 4294967295,
            pow2((32 - n1) as nat) == pow2((32 - n) as nat) * pow2(a1),
    ;
    vstd::arithmetic::power::lemma_pow_mod_noop(pow(g, e), pow2(a1), m);
    vstd::arithmetic::power::lemma_pow_multiplies(g, e, pow2(a1));
}

/// The offsets square from round to round: `c_{i+1} = c_i^2` for `i >= 1`.
pub proof fn lemma_offsets_square(i: nat)
    requires
        i >= 1,
    ensures
        round_offset(i + 1) == fmod(round_offset(i) * round_offset(i)),
{
    let g = MULTIPLICATIVE_GENERATOR as int;
    let m = MODULUS as int;
    let h = pow2((i - 1) as nat);
    vstd::arithmetic::power2::lemma_pow2_adds((i - 1) as nat, 1);
    vstd::arithmetic::power2::lemma2_to64();
    assert(pow2(i) == h * 2);
    vstd::arithmetic::power::lemma_pow_adds(g, h, h);
    assert(h + h == pow2(i));
    vstd::arithmetic::div_mod::lemma_mul_mod_noop_general(pow(g, h), pow(g, h), m);
}

/// `7^(2^K)` modulo `p`, by repeated squaring.
pub open spec fn two_power_chain(k: nat) -> nat
    decreases k,
{
    if k == 0 {
        7
    } else {
        (two_power_chain((k - 1) as nat) * two_power_chain((k - 1) as nat)) % (MODULUS as nat)
    }
}

/// `two_power_chain` is `7^(2^K)` reduced modulo `p`.
proof fn lemma_two_power_chain(k: nat)
    ensures
        two_power_chain(k) == fmod(pow(MULTIPLICATIVE_GENERATOR as int, pow2(k))),
    decreases k,
{
    let md = MODULUS as int;
    let g = MULTIPLICATIVE_GENERATOR as int;
    if k == 0 {
        vstd::arithmetic::power2::lemma2_to64();
        reveal(pow);
        assert(pow(g, 1) == g * pow(g, 0));
        lemma_small_mod(7, MODULUS as nat);
    } else {
        let h = pow2((k - 1) as nat);
        lemma_two_power_chain((k - 1) as nat);
        vstd::arithmetic::power2::lemma_pow2_adds((k - 1) as nat, 1);
        vstd::arithmetic::power2::lemma2_to64();
        assert(pow2(k) == h + h);
        lemma_pow_adds(g, h, h);
        lemma_mul_mod_noop_general(pow(g, h), pow(g, h), md);
    }
}

/// One squaring step of the chain.
proof fn lemma_two_power_chain_step(k: nat, v: nat)
    requires
        two_power_chain(k) == v,
    ensures
        two_power_chain(k + 1) == (v * v) % (MODULUS as nat),
{
}

/// Squarings 0 to 3 of `7` modulo `p`.
proof fn lemma_two_power_chain_values_0()
    ensures
        two_power_chain(0) == 7,
        two_power_chain(1) == 49,
        two_power_chain(2) == 2401,
        two_power_chain(3) == 5764801,
{
    assert(two_power_chain(0) == 7);
    assert(two_power_chain(1) == 49) by {
        lemma_two_power_chain_step(0, 7);
    }
    assert(two_power_chain(2) == 2401) by {
        lemma_two_power_chain_step(1, 49);
    }
    assert(two_power_chain(3) == 5764801) by {
        lemma_two_power_chain_step(2, 2401);
    }
}

/// Squarings 4 to 7 of `7` modulo `p`.
proof fn lemma_two_power_chain_values_1()
    requires
        two_power_chain(3) == 5764801,
    ensures
        two_power_chain(4) == 33232930569601,
        two_power_chain(5) == 3732854072722565977,
        two_power_chain(6) == 11250886851934520606,
        two_power_chain(7) == 12159723539389677939,
{
    assert(two_power_chain(4) == 33232930569601) by {
        lemma_two_power_chain_step(3, 5764801);
    }
    assert(two_power_chain(5) == 3732854072722565977) by {
        lemma_two_power_chain_step(4, 33232930569601);
    }
    assert(two_power_chain(6) == 11250886851934520606) by {
        lemma_two_power_chain_step(5, 3732854072722565977);
    }
    assert(two_power_chain(7) == 12159723539389677939) by {
        lemma_two_power_chain_step(6, 11250886851934520606);
    }
}

/// Squarings 8 to 11 of `7` modulo `p`.
proof fn lemma_two_power_chain_values_2()
    requires
        two_power_chain(7) == 12159723539389677939,
    ensures
        two_power_chain(8) == 1536671775522476176,
        two_power_chain(9) == 18371408314118145657,
        two_power_chain(10) == 2431605942540367610,
        two_power_chain(11) == 6358221588783459004,
{
    assert(two_power_chain(8) == 1536671775522476176) by {
        lemma_two_power_chain_step(7, 12159723539389677939);
    }
    assert(two_power_chain(9) == 18371408314118145657) by {
        lemma_two_power_chain_step(8, 1536671775522476176);
    }
    assert(two_power_chain(10) == 2431605942540367610) by {
        lemma_two_power_chain_step(9, 18371408314118145657);
    }
    assert(two_power_chain(11) == 6358221588783459004) by {
        lemma_two_power_chain_step(10, 2431605942540367610);
    }
}

/// Squarings 12 to 15 of `7` modulo `p`.
proof fn lemma_two_power_chain_values_3()
    requires
        two_power_chain(11) == 6358221588783459004,
    ensures
        two_power_chain(12) == 10083885515493449909,
        two_power_chain(13) == 15094611910849701842,
        two_power_chain(14) == 18060412910171584788,
        two_power_chain(15) == 10529651373896570371,
{
    assert(two_power_chain(12) == 10083885515493449909) by {
        lemma_two_power_chain_step(11, 6358221588783459004);
    }
    assert(two_power_chain(13) == 15094611910849701842) by {
        lemma_two_power_chain_step(12, 10083885515493449909);
    }
    assert(two_power_chain(14) == 18060412910171584788) by {
        lemma_two_power_chain_step(13, 15094611910849701842);
    }
    assert(two_power_chain(15) == 10529651373896570371) by {
        lemma_two_power_chain_step(14, 18060412910171584788);
    }
}

/// Squarings 16 to 19 of `7` modulo `p`.
proof fn lemma_two_power_chain_values_4()
    requires
        two_power_chain(15) == 10529651373896570371,
    ensures
        two_power_chain(16) == 11156834669773791359,
        two_power_chain(17) == 11840798296997857860,
        two_power_chain(18) == 1447330804268045396,
        two_power_chain(19) == 15265864706138236984,
{
    assert(two_power_chain(16) == 11156834669773791359) by {
        lemma_two_power_chain_step(15, 10529651373896570371);
    }
    assert(two_power_chain(17) == 11840798296997857860) by {
        lemma_two_power_chain_step(16, 11156834669773791359);
    }
    assert(two_power_chain(18) == 1447330804268045396) by {
        lemma_two_power_chain_step(17, 11840798296997857860);
    }
    assert(two_power_chain(19) == 15265864706138236984) by {
        lemma_two_power_chain_step(18, 1447330804268045396);
    }
}

/// Squarings 20 to 23 of `7` modulo `p`.
proof fn lemma_two_power_chain_values_5()
    requires
        two_power_chain(19) == 15265864706138236984,
    ensures
        two_power_chain(20) == 12990112920302977158,
        two_power_chain(21) == 16491641580159807679,
        two_power_chain(22) == 17642952523097762870,
        two_power_chain(23) == 4419967652436713981,
{
    assert(two_power_chain(20) == 12990112920302977158) by {
        lemma_two_power_chain_step(19, 15265864706138236984);
    }
    assert(two_power_chain(21) == 16491641580159807679) by {
        lemma_two_power_chain_step(20, 12990112920302977158);
    }
    assert(two_power_chain(22) == 17642952523097762870) by {
        lemma_two_power_chain_step(21, 16491641580159807679);
    }
    assert(two_power_chain(23) == 4419967652436713981) by {
        lemma_two_power_chain_step(22, 17642952523097762870);
    }
}

/// Squarings 24 to 27 of `7` modulo `p`.
proof fn lemma_two_power_chain_values_6()
    requires
        two_power_chain(23) == 4419967652436713981,
    ensures
        two_power_chain(24) == 7206579306846404579,
        two_power_chain(25) == 17869454728573311546,
        two_power_chain(26) == 4919185416341570378,
        two_power_chain(27) == 14445320067108370181,
{
    assert(two_power_chain(24) == 7206579306846404579) by {
        lemma_two_power_chain_step(23, 4419967652436713981);
    }
    assert(two_power_chain(25) == 17869454728573311546) by {
        lemma_two_power_chain_step(24, 7206579306846404579);
    }
    assert(two_power_chain(26) == 4919185416341570378) by {
        lemma_two_power_chain_step(25, 17869454728573311546);
    }
    assert(two_power_chain(27) == 14445320067108370181) by {
        lemma_two_power_chain_step(26, 4919185416341570378);
    }
}

/// Squarings 28 to 31 of `7` modulo `p`.
proof fn lemma_two_power_chain_values_7()
    requires
        two_power_chain(27) == 14445320067108370181,
    ensures
        two_power_chain(28) == 17666966662873528270,
        two_power_chain(29) == 5473358340599679662,
        two_power_chain(30) == 4120449531758749877,
        two_power_chain(31) == 17380019310548783236,
{
    assert(two_power_chain(28) == 17666966662873528270) by {
        lemma_two_power_chain_step(27, 14445320067108370181);
    }
    assert(two_power_chain(29) == 5473358340599679662) by {
        lemma_two_power_chain_step(28, 17666966662873528270);
    }
    assert(two_power_chain(30) == 4120449531758749877) by {
        lemma_two_power_chain_step(29, 5473358340599679662);
    }
    assert(two_power_chain(31) == 17380019310548783236) by {
        lemma_two_power_chain_step(30, 4120449531758749877);
    }
}

/// Squarings 32 to 35 of `7` modulo `p`.
proof fn lemma_two_power_chain_values_8()
    requires
        two_power_chain(31) == 17380019310548783236,
    ensures
        two_power_chain(32) == 12275445934081160404,
        two_power_chain(33) == 4756475762779100925,
        two_power_chain(34) == 8312008622371998338,
        two_power_chain(35) == 3688660304411827445,
{
    assert(two_power_chain(32) == 12275445934081160404) by {
        lemma_two_power_chain_step(31, 17380019310548783236);
    }
    assert(two_power_chain(33) == 4756475762779100925) by {
        lemma_two_power_chain_step(32, 12275445934081160404);
    }
    assert(two_power_chain(34) == 8312008622371998338) by {
        lemma_two_power_chain_step(33, 4756475762779100925);
    }
    assert(two_power_chain(35) == 3688660304411827445) by {
        lemma_two_power_chain_step(34, 8312008622371998338);
    }
}

/// Squarings 36 to 39 of `7` modulo `p`.
proof fn lemma_two_power_chain_values_9()
    requires
        two_power_chain(35) == 3688660304411827445,
    ensures
        two_power_chain(36) == 6534114114080170934,
        two_power_chain(37) == 12241777603010464820,
        two_power_chain(38) == 6822456961749002749,
        two_power_chain(39) == 14740284407083446365,
{
    assert(two_power_chain(36) == 6534114114080170934) by {
        lemma_two_power_chain_step(35, 3688660304411827445);
    }
    assert(two_power_chain(37) == 12241777603010464820) by {
        lemma_two_power_chain_step(36, 6534114114080170934);
    }
    assert(two_power_chain(38) == 6822456961749002749) by {
        lemma_two_power_chain_step(37, 12241777603010464820);
    }
    assert(two_power_chain(39) == 14740284407083446365) by {
        lemma_two_power_chain_step(38, 6822456961749002749);
    }
}

/// Squarings 40 to 43 of `7` modulo `p`.
proof fn lemma_two_power_chain_values_10()
    requires
        two_power_chain(39) == 14740284407083446365,
    ensures
        two_power_chain(40) == 14198376421529404772,
        two_power_chain(41) == 16372603252271478917,
        two_power_chain(42) == 6094962593300533783,
        two_power_chain(43) == 12855798221536971597,
{
    assert(two_power_chain(40) == 14198376421529404772) by {
        lemma_two_power_chain_step(39, 14740284407083446365);
    }
    assert(two_power_chain(41) == 16372603252271478917) by {
        lemma_two_power_chain_step(40, 14198376421529404772);
    }
    assert(two_power_chain(42) == 6094962593300533783) by {
        lemma_two_power_chain_step(41, 16372603252271478917);
    }
    assert(two_power_chain(43) == 12855798221536971597) by {
        lemma_two_power_chain_step(42, 6094962593300533783);
    }
}

/// Squarings 44 to 47 of `7` modulo `p`.
proof fn lemma_two_power_chain_values_11()
    requires
        two_power_chain(43) == 12855798221536971597,
    ensures
        two_power_chain(44) == 4570035464479216815,
        two_power_chain(45) == 13312966101283008305,
        two_power_chain(46) == 17717521521350689785,
        two_power_chain(47) == 2579852125121816621,
{
    assert(two_power_chain(44) == 4570035464479216815) by {
        lemma_two_power_chain_step(43, 12855798221536971597);
    }
    assert(two_power_chain(45) == 13312966101283008305) by {
        lemma_two_power_chain_step(44, 4570035464479216815);
    }
    assert(two_power_chain(46) == 17717521521350689785) by {
        lemma_two_power_chain_step(45, 13312966101283008305);
    }
    assert(two_power_chain(47) == 2579852125121816621) by {
        lemma_two_power_chain_step(46, 17717521521350689785);
    }
}

/// Squarings 48 to 51 of `7` modulo `p`.
proof fn lemma_two_power_chain_values_12()
    requires
        two_power_chain(47) == 2579852125121816621,
    ensures
        two_power_chain(48) == 5647278486080789199,
        two_power_chain(49) == 10087368686013698258,
        two_power_chain(50) == 13705325519725492466,
        two_power_chain(51) == 16094056529116650251,
{
    assert(two_power_chain(48) == 5647278486080789199) by {
        lemma_two_power_chain_step(47, 2579852125121816621);
    }
    assert(two_power_chain(49) == 10087368686013698258) by {
        lemma_two_power_chain_step(48, 5647278486080789199);
    }
    assert(two_power_chain(50) == 13705325519725492466) by {
        lemma_two_power_chain_step(49, 10087368686013698258);
    }
    assert(two_power_chain(51) == 16094056529116650251) by {
        lemma_two_power_chain_step(50, 13705325519725492466);
    }
}

/// Squarings 52 to 55 of `7` modulo `p`.
proof fn lemma_two_power_chain_values_13()
    requires
        two_power_chain(51) == 16094056529116650251,
    ensures
        two_power_chain(52) == 839801632116640137,
        two_power_chain(53) == 809314592928515922,
        two_power_chain(54) == 17285123329644556226,
        two_power_chain(55) == 13607546115301327129,
{
    assert(two_power_chain(52) == 839801632116640137) by {
        lemma_two_power_chain_step(51, 16094056529116650251);
    }
    assert(two_power_chain(53) == 809314592928515922) by {
        lemma_two_power_chain_step(52, 839801632116640137);
    }
    assert(two_power_chain(54) == 17285123329644556226) by {
        lemma_two_power_chain_step(53, 809314592928515922);
    }
    assert(two_power_chain(55) == 13607546115301327129) by {
        lemma_two_power_chain_step(54, 17285123329644556226);
    }
}

/// Squarings 56 to 59 of `7` modulo `p`.
proof fn lemma_two_power_chain_values_14()
    requires
        two_power_chain(55) == 13607546115301327129,
    ensures
        two_power_chain(56) == 8495382904317313497,
        two_power_chain(57) == 7711545778172399998,
        two_power_chain(58) == 14653638268244293248,
        two_power_chain(59) == 4449853170003902284,
{
    assert(two_power_chain(56) == 8495382904317313497) by {
        lemma_two_power_chain_step(55, 13607546115301327129);
    }
    assert(two_power_chain(57) == 7711545778172399998) by {
        lemma_two_power_chain_step(56, 8495382904317313497);
    }
    assert(two_power_chain(58) == 14653638268244293248) by {
        lemma_two_power_chain_step(57, 7711545778172399998);
    }
    assert(two_power_chain(59) == 4449853170003902284) by {
        lemma_two_power_chain_step(58, 14653638268244293248);
    }
}

/// Squarings 60 to 63 of `7` modulo `p`.
proof fn lemma_two_power_chain_values_15()
    requires
        two_power_chain(59) == 4449853170003902284,
    ensures
        two_power_chain(60) == 16684733269283358279,
        two_power_chain(61) == 10831206780798498119,
        two_power_chain(62) == 8050641074587903850,
        two_power_chain(63) == 1066724758865801085,
{
    assert(two_power_chain(60) == 16684733269283358279) by {
        lemma_two_power_chain_step(59, 4449853170003902284);
    }
    assert(two_power_chain(61) == 10831206780798498119) by {
        lemma_two_power_chain_step(60, 16684733269283358279);
    }
    assert(two_power_chain(62) == 8050641074587903850) by {
        lemma_two_power_chain_step(61, 10831206780798498119);
    }
    assert(two_power_chain(63) == 1066724758865801085) by {
        lemma_two_power_chain_step(62, 8050641074587903850);
    }
}

/// The first sixty-four squarings of `7` modulo `p`.
proof fn lemma_two_power_chain_values()
    ensures
        two_power_chain(0) == 7,
        two_power_chain(1) == 49,
        two_power_chain(2) == 2401,
        two_power_chain(3) == 5764801,
        two_power_chain(4) == 33232930569601,
        two_power_chain(5) == 3732854072722565977,
        two_power_chain(6) == 11250886851934520606,
        two_power_chain(7) == 12159723539389677939,
        two_power_chain(8) == 1536671775522476176,
        two_power_chain(9) == 18371408314118145657,
        two_power_chain(10) == 2431605942540367610,
        two_power_chain(11) == 6358221588783459004,
        two_power_chain(12) == 10083885515493449909,
        two_power_chain(13) == 15094611910849701842,
        two_power_chain(14) == 18060412910171584788,
        two_power_chain(15) == 10529651373896570371,
        two_power_chain(16) == 11156834669773791359,
        two_power_chain(17) == 11840798296997857860,
        two_power_chain(18) == 1447330804268045396,
        two_power_chain(19) == 15265864706138236984,
        two_power_chain(20) == 12990112920302977158,
        two_power_chain(21) == 16491641580159807679,
        two_power_chain(22) == 17642952523097762870,
        two_power_chain(23) == 4419967652436713981,
        two_power_chain(24) == 7206579306846404579,
        two_power_chain(25) == 17869454728573311546,
        two_power_chain(26) == 4919185416341570378,
        two_power_chain(27) == 14445320067108370181,
        two_power_chain(28) == 17666966662873528270,
        two_power_chain(29) == 5473358340599679662,
        two_power_chain(30) == 4120449531758749877,
        two_power_chain(31) == 17380019310548783236,
        two_power_chain(32) == 12275445934081160404,
        two_power_chain(33) == 4756475762779100925,
        two_power_chain(34) == 8312008622371998338,
        two_power_chain(35) == 3688660304411827445,
        two_power_chain(36) == 6534114114080170934,
        two_power_chain(37) == 12241777603010464820,
        two_power_chain(38) == 6822456961749002749,
        two_power_chain(39) == 14740284407083446365,
        two_power_chain(40) == 14198376421529404772,
        two_power_chain(41) == 16372603252271478917,
        two_power_chain(42) == 6094962593300533783,
        two_power_chain(43) == 12855798221536971597,
        two_power_chain(44) == 4570035464479216815,
        two_power_chain(45) == 13312966101283008305,
        two_power_chain(46) == 17717521521350689785,
        two_power_chain(47) == 2579852125121816621,
        two_power_chain(48) == 5647278486080789199,
        two_power_chain(49) == 10087368686013698258,
        two_power_chain(50) == 13705325519725492466,
        two_power_chain(51) == 16094056529116650251,
        two_power_chain(52) == 839801632116640137,
        two_power_chain(53) == 809314592928515922,
        two_power_chain(54) == 17285123329644556226,
        two_power_chain(55) == 13607546115301327129,
        two_power_chain(56) == 8495382904317313497,
        two_power_chain(57) == 7711545778172399998,
        two_power_chain(58) == 14653638268244293248,
        two_power_chain(59) == 4449853170003902284,
        two_power_chain(60) == 16684733269283358279,
        two_power_chain(61) == 10831206780798498119,
        two_power_chain(62) == 8050641074587903850,
        two_power_chain(63) == 1066724758865801085,
{
    lemma_two_power_chain_values_0();
    lemma_two_power_chain_values_1();
    lemma_two_power_chain_values_2();
    lemma_two_power_chain_values_3();
    lemma_two_power_chain_values_4();
    lemma_two_power_chain_values_5();
    lemma_two_power_chain_values_6();
    lemma_two_power_chain_values_7();
    lemma_two_power_chain_values_8();
    lemma_two_power_chain_values_9();
    lemma_two_power_chain_values_10();
    lemma_two_power_chain_values_11();
    lemma_two_power_chain_values_12();
    lemma_two_power_chain_values_13();
    lemma_two_power_chain_values_14();
    lemma_two_power_chain_values_15();
}

/// `7^(2^K) != 1` modulo `p` for `K <= 63`: the order of `7` is not a power of two.
pub proof fn lemma_generator_pow2_not_one(k: nat)
    requires
        k <= 63,
    ensures
        fmod(pow(MULTIPLICATIVE_GENERATOR as int, pow2(k))) != 1,
{
    lemma_two_power_chain(k);
    lemma_two_power_chain_values();
    if k == 0 {
    } else if k == 1 {
    } else if k == 2 {
    } else if k == 3 {
    } else if k == 4 {
    } else if k == 5 {
    } else if k == 6 {
    } else if k == 7 {
    } else if k == 8 {
    } else if k == 9 {
    } else if k == 10 {
    } else if k == 11 {
    } else if k == 12 {
    } else if k == 13 {
    } else if k == 14 {
    } else if k == 15 {
    } else if k == 16 {
    } else if k == 17 {
    } else if k == 18 {
    } else if k == 19 {
    } else if k == 20 {
    } else if k == 21 {
    } else if k == 22 {
    } else if k == 23 {
    } else if k == 24 {
    } else if k == 25 {
    } else if k == 26 {
    } else if k == 27 {
    } else if k == 28 {
    } else if k == 29 {
    } else if k == 30 {
    } else if k == 31 {
    } else if k == 32 {
    } else if k == 33 {
    } else if k == 34 {
    } else if k == 35 {
    } else if k == 36 {
    } else if k == 37 {
    } else if k == 38 {
    } else if k == 39 {
    } else if k == 40 {
    } else if k == 41 {
    } else if k == 42 {
    } else if k == 43 {
    } else if k == 44 {
    } else if k == 45 {
    } else if k == 46 {
    } else if k == 47 {
    } else if k == 48 {
    } else if k == 49 {
    } else if k == 50 {
    } else if k == 51 {
    } else if k == 52 {
    } else if k == 53 {
    } else if k == 54 {
    } else if k == 55 {
    } else if k == 56 {
    } else if k == 57 {
    } else if k == 58 {
    } else if k == 59 {
    } else if k == 60 {
    } else if k == 61 {
    } else if k == 62 {
    } else if k == 63 {
    }
}

/// Domain disjointness: consecutive round domains share no point,
/// `L_i ∩ L_{i+1} = ∅` -- a common point would make
/// `(c_{i+1} / c_i)^{|L_i|} = 7^(2^K) = 1` for some `K <= 63`.
pub proof fn lemma_consecutive_domains_disjoint(p: StirParams, i: nat, u: nat, v: nat)
    requires
        domains_fit(p),
        p.folding_factor >= 4,
        is_pow2(p.folding_factor as nat),
        i < p.num_rounds,
    ensures
        fmod(round_offset(i) * pow(root_of_unity_val(round_log_size(p, i)), u)) != fmod(
            round_offset(i + 1) * pow(root_of_unity_val(round_log_size(p, i + 1)), v),
        ),
{
    let md = MODULUS as int;
    let g = MULTIPLICATIVE_GENERATOR as int;
    let ni = round_log_size(p, i);
    let n1 = round_log_size(p, i + 1);
    let a1 = (tz32(p.folding_factor as nat) - 1) as nat;
    lemma_domains_shrink(p, i);
    let nn = pow2(ni);
    let w0 = root_of_unity_val(ni);
    let w1 = root_of_unity_val(n1);
    let c0 = round_offset(i);
    let c1 = round_offset(i + 1);
    let lhs = c0 * pow(w0, u);
    let rhs = c1 * pow(w1, v);
    if fmod(lhs) == fmod(rhs) {
        // Raise both sides to |L_i| = 2^ni.
        lemma_pow_mod_noop(lhs, nn, md);
        lemma_pow_mod_noop(rhs, nn, md);
        assert(fmod(pow(lhs, nn)) == fmod(pow(rhs, nn)));
        crate::field::lemma_root_of_unity_facts(ni);
        crate::field::lemma_root_of_unity_facts(n1);
        // w0^(u 2^ni) = (w0^(2^ni))^u = 1.
        vstd::arithmetic::power::lemma_pow_distributes(c0, pow(w0, u), nn);
        lemma_pow_multiplies(w0, u, nn);
        lemma_pow_multiplies(w0, nn, u);
        assert(u * nn == nn * u) by (nonlinear_arith);
        lemma_pow_mod_noop(pow(w0, nn), u, md);
        vstd::arithmetic::power::lemma1_pow(u);
        lemma_small_mod(1, MODULUS as nat);
        assert(fmod(pow(pow(w0, u), nn)) == 1);
        lemma_mul_mod_noop_general(pow(c0, nn), pow(pow(w0, u), nn), md);
        assert(fmod(pow(lhs, nn)) == fmod(pow(c0, nn)));
        // w1^(v 2^ni) = ((w1^(2^n1))^(2^a1))^v = 1.
        vstd::arithmetic::power::lemma_pow_distributes(c1, pow(w1, v), nn);
        vstd::arithmetic::power2::lemma_pow2_adds(a1, n1);
        assert(nn == pow2(a1) * pow2(n1));
        lemma_pow_multiplies(w1, v, nn);
        lemma_pow_multiplies(w1, nn, v);
        assert(v * nn == nn * v) by (nonlinear_arith);
        lemma_pow_multiplies(w1, pow2(n1), pow2(a1));
        assert(pow2(n1) * pow2(a1) == nn) by (nonlinear_arith)
            requires
                nn == pow2(a1) * pow2(n1),
        ;
        lemma_pow_mod_noop(pow(w1, pow2(n1)), pow2(a1), md);
        vstd::arithmetic::power::lemma1_pow(pow2(a1));
        lemma_pow_mod_noop(pow(w1, nn), v, md);
        vstd::arithmetic::power::lemma1_pow(v);
        assert(fmod(pow(pow(w1, v), nn)) == 1);
        lemma_mul_mod_noop_general(pow(c1, nn), pow(pow(w1, v), nn), md);
        assert(fmod(pow(rhs, nn)) == fmod(pow(c1, nn)));
        // c_{i+1}^(2^ni) = 7^(2^i 2^ni).
        let hi = pow2(i);
        lemma_pow_mod_noop(pow(g, hi), nn, md);
        lemma_pow_multiplies(g, hi, nn);
        vstd::arithmetic::power2::lemma_pow2_adds(i, ni);
        let kk = p.folding_factor as nat;
        assert(tz32(kk) >= 2) by {
            assert(kk % 2 == 0);
            assert(is_pow2(kk / 2));
            assert((kk / 2) % 2 == 0);
            assert(tz32(kk) == 1 + tz32(kk / 2));
            assert(tz32(kk / 2) == 1 + tz32(kk / 2 / 2));
        }
        assert(p.num_rounds <= 32) by (nonlinear_arith)
            requires
                p.num_rounds * (tz32(kk) - 1) <= p.log_initial_domain_size,
                tz32(kk) >= 2,
                p.log_initial_domain_size <= 32,
        ;
        if i == 0 {
            // 1 = 7^(2^ni), impossible.
            vstd::arithmetic::power::lemma1_pow(nn);
            vstd::arithmetic::power2::lemma2_to64();
            assert(fmod(pow(c0, nn)) == 1);
            assert(fmod(pow(g, nn)) == 1);
            lemma_generator_pow2_not_one(ni);
        } else {
            // 7^(2^(i-1) 2^ni) = 7^(2^i 2^ni) = (7^(2^(i-1) 2^ni))^2 forces 7^(2^(i-1+ni)) = 1.
            let h = pow2((i - 1) as nat);
            lemma_pow_mod_noop(pow(g, h), nn, md);
            lemma_pow_multiplies(g, h, nn);
            vstd::arithmetic::power2::lemma_pow2_adds((i - 1) as nat, ni);
            vstd::arithmetic::power2::lemma_pow2_adds((i - 1) as nat, 1);
            vstd::arithmetic::power2::lemma2_to64();
            assert(hi == h * 2);
            let e = h * nn;
            assert(hi * nn == e + e) by (nonlinear_arith)
                requires
                    hi == h * 2,
                    e == h * nn,
            ;
            lemma_pow_adds(g, e, e);
            let z = fmod(pow(g, e));
            assert(z == fmod(pow(c0, nn)));
            assert(fmod(pow(c1, nn)) == fmod(pow(g, hi * nn)));
            lemma_mul_mod_noop_general(pow(g, e), pow(g, e), md);
            assert(fmod(z * z) == z);
            crate::fft_laws::lemma_generator_power_invertible(e);
            let iz = crate::fft::inv_val(z);
            assert(fmod(z * iz) == 1);
            lemma_mul_mod_noop_general(z * z, iz, md);
            lemma_mul_mod_noop_general(z, iz, md);
            assert(z * z * iz == z * (z * iz)) by (nonlinear_arith);
            lemma_mul_mod_noop_general(z, z * iz, md);
            vstd::arithmetic::div_mod::lemma_mod_bound(pow(g, e), md);
            lemma_small_mod(z as nat, MODULUS as nat);
            assert(z == 1);
            assert(e == pow2((i - 1 + ni) as nat));
            lemma_generator_pow2_not_one((i - 1 + ni) as nat);
        }
    }
}

/// A power of the generator is never zero.
pub proof fn lemma_generator_power_nonzero(e: nat)
    ensures
        fmod(pow(MULTIPLICATIVE_GENERATOR as int, e)) != 0,
{
    let g = MULTIPLICATIVE_GENERATOR as int;
    let m = MODULUS as int;
    lemma_generator_half_order();
    if fmod(pow(g, e)) == 0 {
        let n = group_order();
        // g^(e * n) = (g^n)^e = 1, but also g^(e * n) = g^e * g^(e * n - e) = 0.
        vstd::arithmetic::power::lemma_pow_multiplies(g, n, e);
        vstd::arithmetic::power::lemma_pow_mod_noop(pow(g, n), e, m);
        vstd::arithmetic::power::lemma1_pow(e);
        assert(n * e >= e) by (nonlinear_arith)
            requires
                n >= 1,
        ;
        vstd::arithmetic::power::lemma_pow_adds(g, e, (n * e - e) as nat);
        vstd::arithmetic::div_mod::lemma_mul_mod_noop_general(pow(g, e), pow(g, (n * e - e) as nat), m);
        assert(e + (n * e - e) as nat == n * e);
        assert(0 * (pow(g, (n * e - e) as nat) % m) == 0);
    }
}

impl StirDomain {
    /// Build `L_0, ..., L_M` for the parameters.
    pub fn new(params: &StirParams) -> (r: StirDomain)
        requires
            domains_fit(*params),
        ensures
            r.round_domains@.len() == params.num_rounds + 1,
            forall|i: int|
                0 <= i <= params.num_rounds ==> {
                    let d = #[trigger] r.round_domains@[i];
                    &&& d.spec_log_size() == round_log_size(*params, i as nat)
                    &&& d.spec_size() == pow2(round_log_size(*params, i as nat))
                    &&& d.spec_offset().val() == round_offset(i as nat)
                    &&& d.wf()
                },
    {
        let num_rounds = params.num_rounds as usize;
        let mut round_domains: Vec<EvaluationDomain> = Vec::new();
        let n0 = params.round_log_domain_size(0);
        let d0 = EvaluationDomain::new_subgroup(n0);
        proof {
            use_type_invariant(&d0);
        }
        round_domains.push(d0);
        let g = Fp::new(MULTIPLICATIVE_GENERATOR);
        let mut offset = g;
        proof {
            vstd::arithmetic::power2::lemma2_to64();
            vstd::arithmetic::power::lemma_pow1(MULTIPLICATIVE_GENERATOR as int);
        }
        let mut i: usize = 1;
        while i <= num_rounds
            invariant
                1 <= i <= num_rounds + 1,
                num_rounds == params.num_rounds,
                domains_fit(*params),
                round_domains@.len() == i,
                offset.val() == round_offset(i as nat),
                forall|j: int|
                    0 <= j < i ==> {
                        let d = #[trigger] round_domains@[j];
                        &&& d.spec_log_size() == round_log_size(*params, j as nat)
                        &&& d.spec_size() == pow2(round_log_size(*params, j as nat))
                        &&& d.spec_offset().val() == round_offset(j as nat)
                        &&& d.wf()
                    },
            decreases num_rounds + 1 - i,
        {
            proof {
                assert(i * (tz32(params.folding_factor as nat) - 1) <= params.num_rounds * (tz32(
                    params.folding_factor as nat,
                ) - 1)) by (nonlinear_arith)
                    requires
                        i <= params.num_rounds,
                        tz32(params.folding_factor as nat) >= 1,
                ;
            }
            let n_i = params.round_log_domain_size(i as u32);
            proof {
                if n_i < params.log_initial_domain_size {
                    vstd::arithmetic::power2::lemma_pow2_strictly_increases(
                        n_i as nat,
                        params.log_initial_domain_size as nat,
                    );
                }
                lemma_generator_power_nonzero(pow2((i - 1) as nat));
            }
            let d_i = EvaluationDomain::new_coset(n_i, offset);
            proof {
                use_type_invariant(&d_i);
            }
            round_domains.push(d_i);
            let next = offset * offset;
            proof {
                let m = MODULUS as int;
                let gg = MULTIPLICATIVE_GENERATOR as int;
                let e = pow2((i - 1) as nat);
                lemma_from_val((offset.val() * offset.val()) % (MODULUS as nat));
                vstd::arithmetic::div_mod::lemma_mul_mod_noop_general(pow(gg, e), pow(gg, e), m);
                vstd::arithmetic::power::lemma_pow_adds(gg, e, e);
                vstd::arithmetic::power2::lemma_pow2_adds((i - 1) as nat, 1);
                vstd::arithmetic::power2::lemma2_to64();
                assert(((i - 1) as nat + 1) as nat == i as nat);
                assert(e + e == pow2(i as nat));
            }
            offset = next;
            i = i + 1;
        }
        StirDomain { round_domains }
    }

    /// `L_round`.
    pub fn round_domain(&self, round: usize) -> (r: &EvaluationDomain)
        requires
            round < self.round_domains@.len(),
        ensures
            *r == self.round_domains@[round as int],
    {
        &self.round_domains[round]
    }

    /// `M`, one less than the number of domains.
    pub fn num_rounds(&self) -> (r: usize)
        requires
            self.round_domains@.len() >= 1,
        ensures
            r == self.round_domains@.len() - 1,
    {
        self.round_domains.len() - 1
    }

    /// `L_0`.
    pub fn initial_domain(&self) -> (r: &EvaluationDomain)
        requires
            self.round_domains@.len() >= 1,
        ensures
            *r == self.round_domains@[0],
    {
        &self.round_domains[0]
    }

    /// `L_M`.
    pub fn final_domain(&self) -> (r: &EvaluationDomain)
        requires
            self.round_domains@.len() >= 1,
        ensures
            *r == self.round_domains@[self.round_domains@.len() - 1],
    {
        &self.round_domains[self.round_domains.len() - 1]
    }
}

} // verus!
