//! End-to-end entry points: run the prover on a fresh transcript, and
//! run prover and verifier back to back.
use crate::completeness::{draws_complete, fibres_avoid_ood, lemma_honest_proof_accepted};
use crate::field::Fp;
use crate::interaction::{accepts, honest_run};
use crate::params::StirParams;
use crate::polynomial::UnivariatePoly;
use crate::prover::{final_fits, honest_shape, prover_params_ok, StirProver};
use crate::stir_proof::StirProof;
use crate::stir_verifier::StirVerifier;
use crate::transcript::{frame, Transcript};
use vstd::prelude::*;

verus! {

/// The transcript domain separator of this protocol: `b"stir-protocol-v0"`.
pub fn stir_domain_separator() -> (r: Vec<u8>)
    ensures
        r@ == seq![115u8, 116, 105, 114, 45, 112, 114, 111, 116, 111, 99, 111, 108, 45, 118, 48],
{
    let mut v: Vec<u8> = Vec::new();
    v.push(115u8); // s
    v.push(116u8); // t
    v.push(105u8); // i
    v.push(114u8); // r
    v.push(45u8); // -
    v.push(112u8); // p
    v.push(114u8); // r
    v.push(111u8); // o
    v.push(116u8); // t
    v.push(111u8); // o
    v.push(99u8); // c
    v.push(111u8); // o
    v.push(108u8); // l
    v.push(45u8); // -
    v.push(118u8); // v
    v.push(48u8); // 0
    v
}

/// The transcript's state right after `Transcript::new(stir_domain_separator())`.
pub open spec fn stir_initial_state() -> Seq<u8> {
    frame(seq![115u8, 116, 105, 114, 45, 112, 114, 111, 116, 111, 99, 111, 108, 45, 118, 48])
}

/// Some sequences of round polynomials and quotients make `proof` the
/// record of an honest run from `t0` on `f0`.
pub open spec fn honest_run_exists(t0: Seq<u8>, proof: StirProof, p: StirParams, f0: Seq<Fp>) -> bool {
    exists|polys: Seq<Seq<Fp>>, quots: Seq<Seq<Fp>>| #[trigger] honest_run(t0, proof, p, f0, polys, quots)
}

/// Run the prover on `polynomial` with a fresh transcript.
///
/// Refuses a polynomial of degree `>= initial_degree_bound`.
pub fn run_stir(params: StirParams, polynomial: UnivariatePoly) -> (r: Result<StirProof, &'static str>)
    requires
        prover_params_ok(params),
    ensures
        polynomial@.len() > params.initial_degree_bound <==> r is Err,
        r matches Err(m) ==> m == "run_stir: polynomial degree exceeds initial_degree_bound",
        r matches Ok(proof) ==> honest_shape(proof, params),
        r matches Ok(proof) ==> honest_run_exists(stir_initial_state(), proof, params, polynomial@),
{
    match polynomial.degree() {
        Some(d) => {
            if d >= params.initial_degree_bound {
                return Err("run_stir: polynomial degree exceeds initial_degree_bound");
            }
        },
        None => {},
    }
    let separator = stir_domain_separator();
    let mut transcript = Transcript::new(separator.as_slice());
    let ghost t_init = transcript@;
    let ghost gp = params;
    let ghost gpoly = polynomial@;
    let prover = StirProver::new(params, polynomial);
    let proof = prover.prove(&mut transcript);
    proof {
        assert(t_init == stir_initial_state());
        let (polys, quots) = choose|polys: Seq<Seq<Fp>>, quots: Seq<Seq<Fp>>|
            #[trigger] honest_run(t_init, proof, prover.params, prover.initial_polynomial@, polys, quots);
        assert(honest_run(stir_initial_state(), proof, gp, gpoly, polys, quots));
        assert(honest_run_exists(stir_initial_state(), proof, gp, gpoly));
    }
    Ok(proof)
}

/// Run the prover, then a verifier with its own fresh transcript on the
/// proof. The flag says whether the verifier accepted; a rejection is not
/// an error. The honest proof is accepted whenever the prover's degree
/// recurrence ends within the stopping degree (`final_fits`), unless the
/// transcript's randomness runs an OOD draw out of attempts or puts a
/// queried point on an OOD point.
pub fn run_stir_with_verification(params: StirParams, polynomial: UnivariatePoly) -> (r: Result<
    (StirProof, bool),
    &'static str,
>)
    requires
        prover_params_ok(params),
    ensures
        polynomial@.len() > params.initial_degree_bound <==> r is Err,
        r matches Err(m) ==> m == "run_stir: polynomial degree exceeds initial_degree_bound",
        r matches Ok((proof, accepted)) ==> {
            &&& honest_shape(proof, params)
            &&& (accepted <==> accepts(stir_initial_state(), proof, params))
            &&& (final_fits(params) && draws_complete(stir_initial_state(), proof, params) && fibres_avoid_ood(
                stir_initial_state(),
                proof,
                params,
            )) ==> accepted
        },
{
    match polynomial.degree() {
        Some(d) => {
            if d >= params.initial_degree_bound {
                return Err("run_stir: polynomial degree exceeds initial_degree_bound");
            }
        },
        None => {},
    }
    let separator = stir_domain_separator();
    let mut prover_transcript = Transcript::new(separator.as_slice());
    let prover = StirProver::new(params, polynomial);
    let proof = prover.prove(&mut prover_transcript);
    let mut transcript = Transcript::new(separator.as_slice());
    let ghost gp = prover.params;
    let ghost f0 = prover.initial_polynomial@;
    let verifier = StirVerifier::new(prover.params);
    let accepted = verifier.verify(&proof, &mut transcript).is_ok();
    proof {
        let t0 = stir_initial_state();
        if final_fits(gp) && draws_complete(t0, proof, gp) && fibres_avoid_ood(t0, proof, gp) {
            let (polys, quots) = choose|polys: Seq<Seq<Fp>>, quots: Seq<Seq<Fp>>|
                #[trigger] honest_run(t0, proof, gp, f0, polys, quots);
            lemma_honest_proof_accepted(t0, proof, gp, f0, polys, quots);
        }
    }
    Ok((proof, accepted))
}

} // verus!
