# stir

Reed-Solomon codes over the Goldilocks field `p = 2^64 - 2^32 + 1` and the
STIR low-degree test built on them, written in Verus.

- `src/` is the verified library: the field, polynomials, evaluation
  domains, the (inverse) FFT, Reed-Solomon encoding and decoding (inverse
  FFT and Berlekamp-Welch), Merkle commitments (SHA3-256), the Fiat-Shamir
  transcript (BLAKE3 XOF), and the STIR building blocks (folding, OOD
  quotients, degree correction), prover, verifier and protocol entry points.
  The laws of the library are public proof functions, e.g. the cyclic
  group generated by `7` and Fermat's little theorem (`generator`, with the
  primality certificates in `primality`), the transform round trips in both directions
  (`fft_laws`), the Folding theorem (`fold_laws`), domain disjointness
  (`stir_domain`), unique decoding and the exact success condition of
  Berlekamp-Welch (`decoding_laws`, `decode`), Merkle opening
  completeness (`merkle`), the agreement
  of the verifier's virtual oracle with the honest prover
  (`round_consistency`) and the completeness of STIR (`completeness`, over
  the replayed interaction of `interaction`): the verifier accepts an
  honest proof whenever the prover's degree recurrence ends within the
  stopping degree (`final_fits`), every OOD draw succeeds, and no queried
  point is an OOD point.
- `tests/` exercises the library on concrete values.
- `app/` holds the command-line demos and the floating-point soundness
  summary.
