//! Completeness of STIR: the verifier accepts the record of an honest run,
//! unless the transcript's randomness hits one of two rare events -- an OOD
//! draw that runs out of attempts, or a fibre point that is one of the OOD
//! points.
use crate::encode::codeword;
use crate::field::Fp;
use crate::fold::fold_coeffs;
use crate::interaction::{
    accepts, honest_round, honest_run, ood_constraints, ood_step, query_accepts, query_fibre, round_accepts,
    round_size, round_start, round_stride, shift_positions,
};
use crate::params::{tz32, StirParams};
use crate::polynomial::strip;
use crate::prover::{
    final_fits, honest_len_bound, honest_shape, lemma_len_bound_prefix, lemma_round_arith, ood_counts, preimages,
    prover_params_ok,
};
use crate::round_consistency::lemma_virtual_oracle;
use crate::stir_domain::{round_dom, round_log_size, round_offset};
use crate::stir_proof::StirProof;
use crate::stir_verifier::{fibre_collides, lemma_honest_openings_pass};
use vstd::arithmetic::power2::pow2;
use vstd::prelude::*;

verus! {

/// Every OOD draw of the run gave the full `s` points.
pub open spec fn draws_complete(t0: Seq<u8>, proof: StirProof, p: StirParams) -> bool {
    forall|i: nat| i < p.num_rounds ==> (#[trigger] ood_step(round_start(t0, proof, p, i), proof, p, i)).0.len() == p.ood_samples
}

/// No point of a queried fibre is one of the round's OOD points.
pub open spec fn fibres_avoid_ood(t0: Seq<u8>, proof: StirProof, p: StirParams) -> bool {
    forall|i: nat, q: int|
        i < p.num_rounds && 0 <= q < p.repetition_schedule@[i as int] ==> !fibre_collides(
            round_dom(p, i),
            #[trigger] query_fibre(round_start(t0, proof, p, i), proof, p, i, q),
            ood_constraints(round_start(t0, proof, p, i), proof, p, i),
        )
}

/// Completeness: the verifier, replaying the transcript from the same
/// initial state, accepts the record of an honest run whose final
/// polynomial is within the stopping degree, whenever every OOD draw was
/// complete and no queried fibre meets an OOD point.
pub proof fn lemma_honest_run_accepted(
    t0: Seq<u8>,
    proof: StirProof,
    p: StirParams,
    f0: Seq<Fp>,
    polys: Seq<Seq<Fp>>,
    quots: Seq<Seq<Fp>>,
)
    requires
        prover_params_ok(p),
        honest_shape(proof, p),
        honest_run(t0, proof, p, f0, polys, quots),
        proof.final_polynomial@.len() <= p.stopping_degree,
        draws_complete(t0, proof, p),
        fibres_avoid_ood(t0, proof, p),
    ensures
        accepts(t0, proof, p),
{
    reveal(honest_shape);
    let k = p.folding_factor as nat;
    let a = tz32(k);
    crate::params::lemma_tz_of_pow2(k);
    crate::params::lemma_pow2_log(k);
    vstd::arithmetic::power2::lemma2_to64();
    if a < 2 {
        assert(a == 0 || a == 1);
    }
    assert forall|i: int| 0 <= i < p.num_rounds implies (#[trigger] proof.ood_replies@[i])@.len() == p.ood_samples by {
        let ii = i as nat;
        assert(honest_round(round_start(t0, proof, p, ii), proof, p, ii, polys[i], quots[i], polys[i + 1]));
        assert(ood_step(round_start(t0, proof, p, ii), proof, p, ii).0.len() == p.ood_samples);
    }
    lemma_honest_openings_pass(proof, p);
    assert forall|i: nat| i < p.num_rounds implies #[trigger] round_accepts(round_start(t0, proof, p, i), proof, p, i) by {
        let t = round_start(t0, proof, p, i);
        assert(honest_round(t, proof, p, i, polys[i as int], quots[i as int], polys[i + 1 as int]));
        lemma_round_accepts(t0, proof, p, f0, polys, quots, i);
    }
}

/// Completeness of STIR for every parameter set the prover accepts: the
/// verifier accepts the record of an honest run whose final polynomial
/// keeps the prover's length bound (as `prove` ensures), whenever the
/// degree recurrence ends within the stopping degree (`final_fits`),
/// every OOD draw was complete and no queried fibre meets an OOD point.
pub proof fn lemma_honest_proof_accepted(
    t0: Seq<u8>,
    proof: StirProof,
    p: StirParams,
    f0: Seq<Fp>,
    polys: Seq<Seq<Fp>>,
    quots: Seq<Seq<Fp>>,
)
    requires
        prover_params_ok(p),
        honest_shape(proof, p),
        honest_run(t0, proof, p, f0, polys, quots),
        proof.final_polynomial@.len() <= honest_len_bound(p, ood_counts(proof), p.num_rounds as nat),
        final_fits(p),
        draws_complete(t0, proof, p),
        fibres_avoid_ood(t0, proof, p),
    ensures
        accepts(t0, proof, p),
{
    lemma_final_fits(t0, proof, p, f0, polys, quots);
    lemma_honest_run_accepted(t0, proof, p, f0, polys, quots);
}

/// With every OOD draw complete and `final_fits`, the final polynomial of an
/// honest run (within the prover's length bound) is below the stopping degree.
pub proof fn lemma_final_fits(
    t0: Seq<u8>,
    proof: StirProof,
    p: StirParams,
    f0: Seq<Fp>,
    polys: Seq<Seq<Fp>>,
    quots: Seq<Seq<Fp>>,
)
    requires
        prover_params_ok(p),
        honest_shape(proof, p),
        honest_run(t0, proof, p, f0, polys, quots),
        draws_complete(t0, proof, p),
        final_fits(p),
        proof.final_polynomial@.len() <= honest_len_bound(p, ood_counts(proof), p.num_rounds as nat),
    ensures
        proof.final_polynomial@.len() <= p.stopping_degree,
{
    reveal(honest_shape);
    let m = p.num_rounds as nat;
    let c = Seq::new(m, |j: int| p.ood_samples as nat);
    assert forall|j: int| 0 <= j < m implies ood_counts(proof)[j] == c[j] by {
        let jj = j as nat;
        assert(honest_round(round_start(t0, proof, p, jj), proof, p, jj, polys[j], quots[j], polys[j + 1]));
        assert(ood_step(round_start(t0, proof, p, jj), proof, p, jj).0.len() == p.ood_samples);
    }
    lemma_len_bound_prefix(p, ood_counts(proof), c, m);
}

/// One round of an honest run passes the verifier's checks.
proof fn lemma_round_accepts(
    t0: Seq<u8>,
    proof: StirProof,
    p: StirParams,
    f0: Seq<Fp>,
    polys: Seq<Seq<Fp>>,
    quots: Seq<Seq<Fp>>,
    i: nat,
)
    requires
        prover_params_ok(p),
        honest_shape(proof, p),
        honest_run(t0, proof, p, f0, polys, quots),
        fibres_avoid_ood(t0, proof, p),
        i < p.num_rounds,
        honest_round(round_start(t0, proof, p, i), proof, p, i, polys[i as int], quots[i as int], polys[i + 1 as int]),
    ensures
        round_accepts(round_start(t0, proof, p, i), proof, p, i),
{
    reveal(honest_shape);
    let t = round_start(t0, proof, p, i);
    assert forall|q: int| 0 <= q < p.repetition_schedule@[i as int] implies #[trigger] query_accepts(t, proof, p, i, q) by {
        lemma_query_accepts(t0, proof, p, f0, polys, quots, i, q);
    }
}

/// One shift query of an honest run passes the verifier's checks.
proof fn lemma_query_accepts(
    t0: Seq<u8>,
    proof: StirProof,
    p: StirParams,
    f0: Seq<Fp>,
    polys: Seq<Seq<Fp>>,
    quots: Seq<Seq<Fp>>,
    i: nat,
    q: int,
)
    requires
        prover_params_ok(p),
        honest_shape(proof, p),
        honest_run(t0, proof, p, f0, polys, quots),
        fibres_avoid_ood(t0, proof, p),
        i < p.num_rounds,
        0 <= q < p.repetition_schedule@[i as int],
        honest_round(round_start(t0, proof, p, i), proof, p, i, polys[i as int], quots[i as int], polys[i + 1 as int]),
    ensures
        query_accepts(round_start(t0, proof, p, i), proof, p, i, q),
{
    reveal(honest_shape);
    let t = round_start(t0, proof, p, i);
    let k = p.folding_factor as nat;
    let a = tz32(k);
    let n = round_size(p, i);
    let d = round_dom(p, i);
    let pre = query_fibre(t, proof, p, i, q);
    let pos = shift_positions(t, proof, p, i);
    crate::params::lemma_tz_of_pow2(k);
    crate::params::lemma_pow2_log(k);
    vstd::arithmetic::power2::lemma2_to64();
    lemma_round_arith(p, i);
    crate::prover::lemma_pow_mono_k(k, i, p.num_rounds as nat);
    assert(a >= 2) by {
        if a < 2 {
            assert(a == 0 || a == 1);
        }
    }
    // The Merkle openings.
    assert forall|j: int| 0 <= j < k implies crate::stir_verifier::opening_ok(
        proof.merkle_opened_leaves@[i as int]@[q]@[j],
        #[trigger] proof.merkle_paths@[i as int]@[q]@[j],
        n,
        proof.round_commitments@[i as int].root.0@,
    ) by {
        let path = proof.merkle_paths@[i as int]@[q]@[j];
        assert(path.leaf_index < proof.round_commitments@[i as int].tree_size);
    }
    assert forall|j: int| 0 <= j < k implies #[trigger] proof.merkle_opened_leaves@[i as int]@[q]@[j]
        == proof.shift_answers@[i as int]@[q]@[j] by {
        assert(proof.merkle_opened_leaves@[i as int]@[q]@ == proof.shift_answers@[i as int]@[q]@);
    }
    assert forall|j: int| 0 <= j < k implies (#[trigger] proof.merkle_paths@[i as int]@[q]@[j]).leaf_index == pre[j] by {}
    // The last round's consistency check.
    if i + 1 == p.num_rounds {
        let j0 = pos[q] as int;
        assert(j0 < round_stride(p, i));
        crate::stir_domain::lemma_round_dom_wf(p, i);
        vstd::arithmetic::div_mod::lemma_fundamental_div_mod(n as int, k as int);
        assert forall|l: int| 0 <= l < k implies (#[trigger] pre[l]) as int == j0 + l * (n / k) by {
            assert(j0 + l * (n / k) < n) by (nonlinear_arith)
                requires
                    0 <= j0 < n / k,
                    0 <= l < k,
                    (n / k) * k == n,
            ;
            assert(j0 + l * (n / k) >= 0) by (nonlinear_arith)
                requires
                    0 <= j0,
                    0 <= l,
                    n / k >= 0,
            ;
        }
        let answers = proof.shift_answers@[i as int]@[q]@;
        assert forall|l: int| 0 <= l < k implies #[trigger] answers[l] == codeword(polys[i as int], d)[pre[l] as int] by {}
        lemma_virtual_oracle(
            polys[i as int],
            quots[i as int],
            strip(fold_coeffs(quots[i as int], k, crate::interaction::fold_randomness(t, proof, p, i) as int)),
            polys[i + 1 as int],
            d,
            k,
            a,
            j0,
            pre,
            answers,
            ood_constraints(t, proof, p, i),
            crate::interaction::fold_randomness(t, proof, p, i) as int,
            crate::interaction::comb_randomness(t, proof, p, i) as int,
            crate::interaction::correction_degree(p, i, ood_step(t, proof, p, i).0.len()),
            crate::field::fmod(vstd::arithmetic::power::pow(d.spec_generator().val() as int, round_stride(p, i))),
        );
    }
}

} // verus!
