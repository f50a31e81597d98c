//! The evaluation domain `L = c · <ω>`: a smooth multiplicative coset of
//! size `2^k`, where `ω` is a primitive `2^k`-th root of unity and `c` a
//! non-zero offset (`c = 1` for the subgroup itself).
use crate::field::{fmod, group_order, lemma_from_val, lemma_val_eq, Fp, MODULUS, MULTIPLICATIVE_GENERATOR, TWO_ADICITY};
use vstd::arithmetic::div_mod::{
    lemma_fundamental_div_mod, lemma_mod_twice, lemma_mul_mod_noop_general, lemma_small_mod,
};
use vstd::arithmetic::power::{lemma_pow_adds, lemma_pow_mod_noop, lemma_pow_multiplies, lemma1_pow, pow};
use vstd::arithmetic::power2::{lemma_pow2, lemma_pow2_pos, pow2};
use vstd::prelude::*;

verus! {

/// The value of the `i`-th domain point `c · ω^i` for offset `c` and generator `w`.
pub open spec fn coset_point(c: Fp, w: Fp, i: int) -> int {
    fmod(c.val() * pow(w.val() as int, i as nat))
}

/// The generator value of the smooth subgroup of size `2^log_n`.
pub open spec fn root_of_unity_val(log_n: nat) -> int {
    pow(MULTIPLICATIVE_GENERATOR as int, group_order() / pow2(log_n)) % (MODULUS as int)
}

/// A smooth multiplicative coset `L = offset · <generator>` in `F_p`.
#[derive(Clone, Copy, Debug)]
pub struct EvaluationDomain {
    generator: Fp,
    size: usize,
    offset: Fp,
    log_size: u32,
}

impl EvaluationDomain {
    /// The shape every domain keeps: `size = 2^log_size <= 2^32`, the
    /// generator is the primitive `size`-th root `7^((p-1)/size)`, and the
    /// offset is non-zero.
    #[verifier::type_invariant]
    pub closed spec fn wf(self) -> bool {
        &&& self.log_size <= TWO_ADICITY
        &&& self.size as nat == pow2(self.log_size as nat)
        &&& self.generator.val() == root_of_unity_val(self.log_size as nat)
        &&& self.offset.val() != 0
        &&& self.offset.val() < MODULUS
    }

    /// `ω`.
    pub closed spec fn spec_generator(self) -> Fp {
        self.generator
    }

    /// `|L|`.
    pub closed spec fn spec_size(self) -> nat {
        self.size as nat
    }

    /// `c`.
    pub closed spec fn spec_offset(self) -> Fp {
        self.offset
    }

    /// `log_2 |L|`.
    pub closed spec fn spec_log_size(self) -> nat {
        self.log_size as nat
    }

    /// The value of the `i`-th point `c · ω^i`.
    pub open spec fn point(self, i: int) -> int {
        coset_point(self.spec_offset(), self.spec_generator(), i)
    }

    /// Construct the smooth subgroup of size `2^log_size` (offset `1`).
    pub fn new_subgroup(log_size: u32) -> (r: EvaluationDomain)
        requires
            log_size <= TWO_ADICITY,
            pow2(log_size as nat) <= usize::MAX,
        ensures
            r.spec_log_size() == log_size,
            r.spec_size() == pow2(log_size as nat),
            r.spec_generator().val() == root_of_unity_val(log_size as nat),
            r.spec_offset().val() == 1,
    {
        let generator = Fp::primitive_root_of_unity(log_size);
        proof {
            lemma_pow2_fits(log_size as nat);
            vstd::bits::lemma_u64_shl_is_mul(1, log_size as u64);
        }
        let size: usize = (1u64 << log_size) as usize;
        EvaluationDomain { generator, size, offset: Fp::one(), log_size }
    }

    /// Construct the coset `offset · <ω>` of size `2^log_size`.
    pub fn new_coset(log_size: u32, offset: Fp) -> (r: EvaluationDomain)
        requires
            log_size <= TWO_ADICITY,
            pow2(log_size as nat) <= usize::MAX,
            offset.val() != 0,
        ensures
            r.spec_log_size() == log_size,
            r.spec_size() == pow2(log_size as nat),
            r.spec_generator().val() == root_of_unity_val(log_size as nat),
            r.spec_offset() == offset,
    {
        let generator = Fp::primitive_root_of_unity(log_size);
        proof {
            lemma_pow2_fits(log_size as nat);
            vstd::bits::lemma_u64_shl_is_mul(1, log_size as u64);
            use_type_invariant(&offset);
            crate::field::lemma_canonical(offset);
        }
        let size: usize = (1u64 << log_size) as usize;
        EvaluationDomain { generator, size, offset, log_size }
    }

    /// `n = |L|`.
    pub fn size(&self) -> (r: usize)
        ensures
            r == self.spec_size(),
    {
        self.size
    }

    /// `log_2(|L|)`.
    pub fn log_size(&self) -> (r: u32)
        ensures
            r == self.spec_log_size(),
    {
        self.log_size
    }

    /// The generator `ω`.
    pub fn generator(&self) -> (r: Fp)
        ensures
            r == self.spec_generator(),
    {
        self.generator
    }

    /// The coset offset `c`.
    pub fn offset(&self) -> (r: Fp)
        ensures
            r == self.spec_offset(),
    {
        self.offset
    }

    /// The `i`-th element `c · ω^(i mod n)`; indices wrap around.
    pub fn element(&self, i: usize) -> (r: Fp)
        ensures
            r.val() == fmod(self.spec_offset().val() * pow(
                self.spec_generator().val() as int,
                (i as nat % self.spec_size()) as nat,
            )),
            r.val() == self.point(i as int),
    {
        proof {
            use_type_invariant(self);
            lemma_pow2_pos(self.log_size as nat);
        }
        let new_i = i % self.size;
        let g = self.generator.pow(new_i as u64);
        let r = self.offset * g;
        proof {
            broadcast use lemma_from_val;

            lemma_domain_wf(*self);
            let m = MODULUS as int;
            let w = self.generator.val() as int;
            lemma_mul_mod_noop_general(self.offset.val() as int, pow(w, new_i as nat), m);
            lemma_mod_twice(self.offset.val() as int, m);
            lemma_pow_wraps(w, self.size as nat, i as nat);
            lemma_mul_mod_noop_general(self.offset.val() as int, pow(w, i as nat), m);
        }
        r
    }

    /// An iterator over all `|L|` elements, in index order.
    pub fn iter(&self) -> (r: DomainIter)
        ensures
            r.spec_current() == self.spec_offset(),
            r.spec_generator() == self.spec_generator(),
            r.spec_remaining() == self.spec_size(),
    {
        DomainIter { current: self.offset, generator: self.generator, remaining: self.size }
    }
}

/// `2^k` fits in a `u64` and a `usize` for `k <= 32`.
pub proof fn lemma_pow2_fits(k: nat)
    requires
        k <= 32,
    ensures
        pow2(k) <= 0x1_0000_0000,
        pow2(k) > 0,
{
    lemma_pow2_pos(k);
    vstd::arithmetic::power2::lemma2_to64();
    if k < 32 {
        vstd::arithmetic::power2::lemma_pow2_strictly_increases(k, 32);
    }
}

/// `w^n = 1` implies `w^i = w^(i mod n)` modulo `p`.
pub proof fn lemma_pow_wraps(w: int, n: nat, i: nat)
    requires
        n > 0,
        pow(w, n) % (MODULUS as int) == 1,
    ensures
        pow(w, i) % (MODULUS as int) == pow(w, i % n) % (MODULUS as int),
{
    let m = MODULUS as int;
    let q = i / n;
    let r = i % n;
    lemma_fundamental_div_mod(i as int, n as int);
    assert(i == n * q + r);
    lemma_pow_adds(w, n * q, r);
    lemma_pow_multiplies(w, n, q);
    lemma_pow_mod_noop(pow(w, n), q, m);
    lemma1_pow(q);
    lemma_mul_mod_noop_general(pow(pow(w, n), q), pow(w, r), m);
    lemma_small_mod(1, MODULUS as nat);
}

/// The points of a domain are distinct: `c w^i != c w^j` for `i < j < |L|`.
pub proof fn lemma_domain_points_distinct(d: EvaluationDomain, i: int, j: int)
    requires
        d.wf(),
        0 <= i < j < d.spec_size(),
    ensures
        d.point(i) != d.point(j),
{
    let m = MODULUS as int;
    lemma_domain_wf(d);
    let c = d.spec_offset().val() as int;
    let w = d.spec_generator().val() as int;
    let n = d.spec_size();
    crate::generator::lemma_root_of_unity_order(d.spec_log_size());
    crate::primality::lemma_order_powers_distinct(w, m, n, i as nat, j as nat);
    if d.point(i) == d.point(j) {
        let wi = pow(w, i as nat);
        let wj = pow(w, j as nat);
        vstd::arithmetic::div_mod::lemma_small_mod(c as nat, MODULUS as nat);
        crate::generator::lemma_inv_val_correct(c);
        let ic = crate::fft::inv_val(c);
        // Multiply `c w^i = c w^j` by `c^(-1)`.
        vstd::arithmetic::div_mod::lemma_mul_mod_noop_general(ic, c * wi, m);
        vstd::arithmetic::div_mod::lemma_mul_mod_noop_general(ic, c * wj, m);
        assert(ic * (c * wi) == (c * ic) * wi) by (nonlinear_arith);
        assert(ic * (c * wj) == (c * ic) * wj) by (nonlinear_arith);
        vstd::arithmetic::div_mod::lemma_mul_mod_noop_general(c * ic, wi, m);
        vstd::arithmetic::div_mod::lemma_mul_mod_noop_general(c * ic, wj, m);
        assert(1 * wi == wi && 1 * wj == wj);
    }
}

/// The domain of size `2^log_size` with offset value `offset`, as a value.
pub closed spec fn coset_domain(log_size: nat, offset: nat) -> EvaluationDomain {
    EvaluationDomain {
        generator: Fp::from_val(root_of_unity_val(log_size) as nat),
        size: pow2(log_size) as usize,
        offset: Fp::from_val(offset),
        log_size: log_size as u32,
    }
}

/// A well-formed domain is determined by its size and its offset.
pub proof fn lemma_domain_is_coset_domain(d: EvaluationDomain)
    requires
        d.wf(),
    ensures
        d == coset_domain(d.spec_log_size(), d.spec_offset().val()),
{
    let c = coset_domain(d.spec_log_size(), d.spec_offset().val());
    lemma_root_of_unity_val_bound(d.log_size as nat);
    lemma_from_val(root_of_unity_val(d.log_size as nat) as nat);
    lemma_from_val(d.offset.val());
    lemma_val_eq(c.generator, d.generator);
    lemma_val_eq(c.offset, d.offset);
}

/// The values of a domain built by `coset_domain`.
pub proof fn lemma_coset_domain(log_size: nat, offset: nat)
    requires
        log_size <= TWO_ADICITY,
        pow2(log_size) <= usize::MAX,
        0 < offset < MODULUS,
    ensures
        coset_domain(log_size, offset).wf(),
        coset_domain(log_size, offset).spec_log_size() == log_size,
        coset_domain(log_size, offset).spec_size() == pow2(log_size),
        coset_domain(log_size, offset).spec_offset().val() == offset,
{
    lemma_root_of_unity_val_bound(log_size);
    lemma_from_val(root_of_unity_val(log_size) as nat);
    lemma_from_val(offset);
}

/// `7^((p-1)/2^k) mod p` is a canonical value.
proof fn lemma_root_of_unity_val_bound(k: nat)
    ensures
        0 <= root_of_unity_val(k) < MODULUS,
{
    vstd::arithmetic::div_mod::lemma_mod_bound(
        pow(MULTIPLICATIVE_GENERATOR as int, group_order() / pow2(k)),
        MODULUS as int,
    );
}

/// What the representation invariant of a domain gives its users.
pub proof fn lemma_domain_wf(d: EvaluationDomain)
    requires
        d.wf(),
    ensures
        d.spec_log_size() <= 32,
        d.spec_size() == pow2(d.spec_log_size()),
        d.spec_size() > 0,
        d.spec_size() <= 0x1_0000_0000,
        d.spec_size() <= usize::MAX,
        d.spec_generator().val() == root_of_unity_val(d.spec_log_size()),
        d.spec_offset().val() != 0,
        d.spec_offset().val() < MODULUS,
        d.spec_generator().val() < MODULUS,
        pow(d.spec_generator().val() as int, d.spec_size()) % (MODULUS as int) == 1,
        d.spec_log_size() >= 1 ==> pow(
            d.spec_generator().val() as int,
            pow2((d.spec_log_size() - 1) as nat),
        ) % (MODULUS as int) == MODULUS - 1,
{
    lemma_pow2_fits(d.log_size as nat);
    crate::field::lemma_root_of_unity_facts(d.log_size as nat);
    vstd::arithmetic::div_mod::lemma_mod_bound(
        pow(MULTIPLICATIVE_GENERATOR as int, group_order() / pow2(d.log_size as nat)),
        MODULUS as int,
    );
}

/// Walks the elements of an [`EvaluationDomain`] in order.
pub struct DomainIter {
    current: Fp,
    generator: Fp,
    remaining: usize,
}

impl DomainIter {
    /// The next element to yield.
    pub closed spec fn spec_current(self) -> Fp {
        self.current
    }

    /// The factor between consecutive elements.
    pub closed spec fn spec_generator(self) -> Fp {
        self.generator
    }

    /// How many elements remain.
    pub closed spec fn spec_remaining(self) -> nat {
        self.remaining as nat
    }

    /// Yield the next element, or `None` once all have been yielded.
    pub fn next(&mut self) -> (r: Option<Fp>)
        ensures
            old(self).spec_remaining() == 0 ==> r is None && *final(self) == *old(self),
            old(self).spec_remaining() > 0 ==> {
                &&& r == Some(old(self).spec_current())
                &&& final(self).spec_remaining() == old(self).spec_remaining() - 1
                &&& final(self).spec_generator() == old(self).spec_generator()
                &&& final(self).spec_current().val() == fmod(
                    old(self).spec_current().val() as int * old(self).spec_generator().val(),
                )
            },
    {
        if self.remaining == 0 {
            return None;
        }
        let out = self.current;
        self.current = self.current * self.generator;
        self.remaining = self.remaining - 1;
        proof {
            broadcast use lemma_from_val;

        }
        Some(out)
    }

    /// The number of elements left to yield.
    pub fn len(&self) -> (r: usize)
        ensures
            r == self.spec_remaining(),
    {
        self.remaining
    }
}

} // verus!
