use stir::field::Fp;
use stir::params::StirParams;
use stir::polynomial::UnivariatePoly;
use stir::protocol::{run_stir, run_stir_with_verification, stir_domain_separator};

fn demo_params() -> StirParams {
    StirParams::new(6, 16, 4)
        .with_security_bits(32)
        .with_ood_samples(1)
        .with_stopping_degree(4)
        .with_repetition_schedule(vec![8, 4, 2])
}

fn demo_polynomial() -> UnivariatePoly {
    let coeffs: Vec<Fp> = (1u64..=15).map(Fp::new).collect();
    UnivariatePoly::new(coeffs)
}

#[test]
fn run_stir_produces_proof() {
    let params = demo_params();
    let polynomial = demo_polynomial();
    let m = params.num_rounds as usize;
    let result = run_stir(params, polynomial);
    assert!(result.is_ok(), "honest run_stir must succeed");
    let proof = result.unwrap();
    assert_eq!(proof.round_commitments.len(), m);
}

#[test]
fn run_stir_with_verification_accepts_honest_prover() {
    let params = demo_params();
    let polynomial = demo_polynomial();
    let (proof, accepted) = run_stir_with_verification(params, polynomial).unwrap();
    assert!(accepted, "honest prover must convince the verifier");
    assert!(!proof.round_commitments.is_empty());
}

#[test]
fn run_stir_with_verification_rejects_low_degree_violator() {
    let params = StirParams::new(6, 16, 4);
    let too_many_coeffs: Vec<Fp> = (1u64..=20).map(Fp::new).collect();
    let polynomial = UnivariatePoly::new(too_many_coeffs);
    let result = run_stir_with_verification(params, polynomial);
    assert!(result.is_err(), "wrong-degree witness must Err");
}

#[test]
fn run_stir_refuses_degree_equal_to_bound() {
    let params = StirParams::new(6, 16, 4);
    let coeffs: Vec<Fp> = (1u64..=17).map(Fp::new).collect();
    let result = run_stir(params, UnivariatePoly::new(coeffs));
    assert_eq!(result.unwrap_err(), "run_stir: polynomial degree exceeds initial_degree_bound");
}

#[test]
fn run_stir_accepts_zero_polynomial() {
    let (_, accepted) = run_stir_with_verification(demo_params(), UnivariatePoly::zero()).unwrap();
    assert!(accepted);
}

#[test]
fn domain_separator_spells_the_protocol_name() {
    assert_eq!(stir_domain_separator(), b"stir-protocol-v0".to_vec());
}

#[test]
fn honest_prover_accepted_when_k_pow_m_does_not_divide_d0() {
    let params = StirParams::new(6, 32, 4).with_security_bits(32);
    let coeffs: Vec<Fp> = (1u64..=32).map(Fp::new).collect();
    let (proof, accepted) = run_stir_with_verification(params, UnivariatePoly::new(coeffs)).unwrap();
    assert!(accepted);
    assert_eq!(proof.round_commitments.len(), 3);
    assert!(proof.final_polynomial.degree().map_or(true, |d| d < 1));
}
