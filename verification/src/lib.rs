//! Reed-Solomon codes over the Goldilocks field and the STIR low-degree
//! test built on them.
use vstd::prelude::*;

pub mod arith;
pub mod primality;
pub mod generator;
pub mod field;
pub mod polynomial;
pub mod domain;
pub mod fft;
pub mod fft_laws;
pub mod sums;
pub mod poly_laws;
pub mod roots;
pub mod interpolate;
pub mod bytes;
pub mod merkle;
pub mod transcript;
pub mod encode;
pub mod decode;
pub mod decoding_laws;
pub mod params;
pub mod stir_domain;
pub mod fold;
pub mod fold_laws;
pub mod quotient;
pub mod degree_correction;
pub mod ood;
pub mod commitment;
pub mod stir_proof;
pub mod prover;
pub mod stir_verifier;
pub mod protocol;
pub mod round_consistency;
pub mod interaction;
pub mod completeness;

verus! {
}
