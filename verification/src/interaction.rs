//! The Fiat-Shamir interaction of one proof, as the verifier replays it:
//! the transcript at the start of every round, the challenges drawn from
//! it, and the checks that make the verifier accept.
use crate::commitment::StirCommitment;
use crate::degree_correction::g_r_value;
use crate::encode::codeword;
use crate::fold::fold_coeffs;
use crate::interpolate::lagrange_value;
use crate::merkle::MerklePath;
use crate::quotient::vanishing;
use crate::field::{fmod, Fp, MODULUS};
use crate::ood::{ood_draw, zip_pairs, OOD_ATTEMPTS};
use crate::params::StirParams;
use crate::polynomial::{poly_eval, strip};
use crate::prover::{preimages, round_degree};
use crate::stir_domain::{round_dom, round_log_size};
use crate::stir_proof::StirProof;
use crate::stir_verifier::{fibre_collides, fibre_next, field_frames, opening_ok, shape_violation};
use crate::transcript::{after_squeeze_field, after_squeeze_indices, frame, squeeze_field_value, squeeze_indices_value};
use vstd::arithmetic::power::pow;
use vstd::arithmetic::power2::pow2;
use vstd::prelude::*;

verus! {

/// `|L_i|`.
pub open spec fn round_size(p: StirParams, i: nat) -> nat {
    pow2(round_log_size(p, i))
}

/// `|L_i| / k`, the number of fibres of `L_i`.
pub open spec fn round_stride(p: StirParams, i: nat) -> nat {
    round_size(p, i) / (p.folding_factor as nat)
}

/// The frames of the leaves opened by the first `t` queries of a round.
pub open spec fn queries_frames(leaves: Seq<Vec<Fp>>, t: nat) -> Seq<u8>
    decreases t,
{
    if t == 0 {
        Seq::empty()
    } else {
        queries_frames(leaves, (t - 1) as nat) + field_frames(leaves[t - 1]@)
    }
}

/// Appending a query's leaves extends the frames by that query's frames.
pub proof fn lemma_queries_frames_push(leaves: Seq<Vec<Fp>>, x: Vec<Fp>, t: nat)
    requires
        t <= leaves.len(),
    ensures
        queries_frames(leaves.push(x), t) == queries_frames(leaves, t),
        t == leaves.len() ==> queries_frames(leaves.push(x), t + 1) == queries_frames(leaves, t) + field_frames(x@),
    decreases t,
{
    if t > 0 {
        lemma_queries_frames_push(leaves, x, (t - 1) as nat);
    }
}

/// From the state `t` at the start of round `i`: absorb the commitment's
/// `root`, then draw the OOD points outside `L_{i+1}`. The points, and the
/// state after them.
pub open spec fn ood_step_of(t: Seq<u8>, root: Seq<u8>, p: StirParams, i: nat) -> (Seq<Fp>, Seq<u8>) {
    ood_draw(t + frame(root), p.ood_samples as nat, round_dom(p, i + 1), Seq::empty(), OOD_ATTEMPTS as nat)
}

/// The state once the OOD `replies` of round `i` are absorbed.
pub open spec fn replies_absorbed_of(t: Seq<u8>, root: Seq<u8>, replies: Seq<Fp>, p: StirParams, i: nat) -> Seq<u8> {
    ood_step_of(t, root, p, i).1 + field_frames(replies)
}

/// The state once both randomness values of round `i` are drawn.
pub open spec fn randomness_drawn_of(t: Seq<u8>, root: Seq<u8>, replies: Seq<Fp>, p: StirParams, i: nat) -> Seq<u8> {
    after_squeeze_field(after_squeeze_field(replies_absorbed_of(t, root, replies, p, i)))
}

/// The folded positions of the shift queries of round `i`.
pub open spec fn shift_positions_of(t: Seq<u8>, root: Seq<u8>, replies: Seq<Fp>, p: StirParams, i: nat) -> Seq<u32> {
    squeeze_indices_value(
        randomness_drawn_of(t, root, replies, p, i),
        p.repetition_schedule@[i as int] as nat,
        round_stride(p, i),
    )
}

/// The state at the end of round `i`: the shift positions drawn and every
/// opened leaf absorbed.
pub open spec fn round_end_of(
    t: Seq<u8>,
    root: Seq<u8>,
    replies: Seq<Fp>,
    leaves: Seq<Vec<Fp>>,
    p: StirParams,
    i: nat,
) -> Seq<u8> {
    after_squeeze_indices(
        randomness_drawn_of(t, root, replies, p, i),
        p.repetition_schedule@[i as int] as nat,
        round_stride(p, i),
    ) + queries_frames(leaves, p.repetition_schedule@[i as int] as nat)
}

/// `ood_step_of` on round `i` of `proof`.
pub open spec fn ood_step(t: Seq<u8>, proof: StirProof, p: StirParams, i: nat) -> (Seq<Fp>, Seq<u8>) {
    ood_step_of(t, proof.round_commitments@[i as int].root.0@, p, i)
}

/// `replies_absorbed_of` on round `i` of `proof`.
pub open spec fn replies_absorbed(t: Seq<u8>, proof: StirProof, p: StirParams, i: nat) -> Seq<u8> {
    replies_absorbed_of(t, proof.round_commitments@[i as int].root.0@, proof.ood_replies@[i as int]@, p, i)
}

/// The combination randomness `r_i` of round `i`.
pub open spec fn comb_randomness(t: Seq<u8>, proof: StirProof, p: StirParams, i: nat) -> nat {
    squeeze_field_value(replies_absorbed(t, proof, p, i))
}

/// The folding randomness `alpha_i` of round `i`.
pub open spec fn fold_randomness(t: Seq<u8>, proof: StirProof, p: StirParams, i: nat) -> nat {
    squeeze_field_value(after_squeeze_field(replies_absorbed(t, proof, p, i)))
}

/// The folded positions of the shift queries of round `i` of `proof`.
pub open spec fn shift_positions(t: Seq<u8>, proof: StirProof, p: StirParams, i: nat) -> Seq<u32> {
    shift_positions_of(t, proof.round_commitments@[i as int].root.0@, proof.ood_replies@[i as int]@, p, i)
}

/// The state at the end of round `i` of `proof`.
pub open spec fn round_end(t: Seq<u8>, proof: StirProof, p: StirParams, i: nat) -> Seq<u8> {
    round_end_of(
        t,
        proof.round_commitments@[i as int].root.0@,
        proof.ood_replies@[i as int]@,
        proof.merkle_opened_leaves@[i as int]@,
        p,
        i,
    )
}

/// The state at the start of round `i`, from the initial state `t0`, given
/// each earlier round's root, OOD replies and opened leaves.
pub open spec fn round_start_from(
    t0: Seq<u8>,
    roots: Seq<Seq<u8>>,
    replies: Seq<Seq<Fp>>,
    leaves: Seq<Seq<Vec<Fp>>>,
    p: StirParams,
    i: nat,
) -> Seq<u8>
    decreases i,
{
    if i == 0 {
        t0
    } else {
        let j = (i - 1) as nat;
        round_end_of(round_start_from(t0, roots, replies, leaves, p, j), roots[j as int], replies[j as int], leaves[j as int], p, j)
    }
}

/// Only the first `i` rounds' data determine the state at the start of round `i`.
pub proof fn lemma_round_start_prefix(
    t0: Seq<u8>,
    roots1: Seq<Seq<u8>>,
    replies1: Seq<Seq<Fp>>,
    leaves1: Seq<Seq<Vec<Fp>>>,
    roots2: Seq<Seq<u8>>,
    replies2: Seq<Seq<Fp>>,
    leaves2: Seq<Seq<Vec<Fp>>>,
    p: StirParams,
    i: nat,
)
    requires
        forall|j: int| 0 <= j < i ==> #[trigger] roots1[j] == roots2[j],
        forall|j: int| 0 <= j < i ==> #[trigger] replies1[j] == replies2[j],
        forall|j: int| 0 <= j < i ==> #[trigger] leaves1[j] == leaves2[j],
    ensures
        round_start_from(t0, roots1, replies1, leaves1, p, i) == round_start_from(t0, roots2, replies2, leaves2, p, i),
    decreases i,
{
    if i > 0 {
        lemma_round_start_prefix(t0, roots1, replies1, leaves1, roots2, replies2, leaves2, p, (i - 1) as nat);
        let j = i - 1;
        assert(roots1[j] == roots2[j]);
        assert(replies1[j] == replies2[j]);
        assert(leaves1[j] == leaves2[j]);
    }
}

/// The commitment roots of the rounds of `proof`.
pub open spec fn proof_roots(proof: StirProof) -> Seq<Seq<u8>> {
    Seq::new(proof.round_commitments@.len(), |i: int| proof.round_commitments@[i].root.0@)
}

/// The OOD replies of the rounds of `proof`.
pub open spec fn proof_replies(proof: StirProof) -> Seq<Seq<Fp>> {
    Seq::new(proof.ood_replies@.len(), |i: int| proof.ood_replies@[i]@)
}

/// The opened leaves of the rounds of `proof`.
pub open spec fn proof_leaves(proof: StirProof) -> Seq<Seq<Vec<Fp>>> {
    Seq::new(proof.merkle_opened_leaves@.len(), |i: int| proof.merkle_opened_leaves@[i]@)
}

/// The state at the start of round `i` of `proof`, from the initial state `t0`.
pub open spec fn round_start(t0: Seq<u8>, proof: StirProof, p: StirParams, i: nat) -> Seq<u8> {
    round_start_from(t0, proof_roots(proof), proof_replies(proof), proof_leaves(proof), p, i)
}

/// The degree-correction exponent `e_i` for `s` OOD points:
/// `d_{i+1} - ceil((d_i - s) / k)`, clamped at `0`.
pub open spec fn correction_degree(p: StirParams, i: nat, s: nat) -> nat {
    let d_i = round_degree(p, i);
    let d_next = round_degree(p, i + 1);
    let k = p.folding_factor as int;
    let g = if d_i >= s {
        (d_i - s + k - 1) / k
    } else {
        0
    };
    if d_next >= g {
        (d_next - g) as nat
    } else {
        0
    }
}

/// The OOD constraints of round `i`: the drawn points with the proof's replies.
pub open spec fn ood_constraints(t: Seq<u8>, proof: StirProof, p: StirParams, i: nat) -> Seq<(Fp, Fp)> {
    zip_pairs(ood_step(t, proof, p, i).0, proof.ood_replies@[i as int]@)
}

/// The positions in `L_i` of the fibre of shift query `q` of round `i`.
pub open spec fn query_fibre(t: Seq<u8>, proof: StirProof, p: StirParams, i: nat, q: int) -> Seq<usize> {
    preimages(shift_positions(t, proof, p, i)[q] as nat, round_size(p, i), p.folding_factor as nat)
}

/// The value the verifier derives for round `i + 1` at `x^k` from the fibre of query `q`.
pub open spec fn query_next_value(t: Seq<u8>, proof: StirProof, p: StirParams, i: nat, q: int) -> int {
    let d = round_dom(p, i);
    fibre_next(
        d,
        query_fibre(t, proof, p, i, q),
        proof.shift_answers@[i as int]@[q]@,
        ood_constraints(t, proof, p, i),
        fold_randomness(t, proof, p, i) as int,
        comb_randomness(t, proof, p, i) as int,
        fmod(pow(d.spec_generator().val() as int, round_stride(p, i))),
        correction_degree(p, i, ood_step(t, proof, p, i).0.len()),
    )
}

/// The point `x^k` of `L_{i+1}` over the fibre of query `q`.
pub open spec fn query_point(t: Seq<u8>, proof: StirProof, p: StirParams, i: nat, q: int) -> int {
    fmod(pow(round_dom(p, i).point(query_fibre(t, proof, p, i, q)[0] as int), p.folding_factor as nat))
}

/// Query `q` of round `i` passes: every opening authenticates its leaf at
/// its fibre position, the leaves are the answers, no fibre point is an
/// OOD point, and in the last round the final polynomial agrees with the
/// value derived from the fibre.
pub open spec fn query_accepts(t: Seq<u8>, proof: StirProof, p: StirParams, i: nat, q: int) -> bool {
    let n = round_size(p, i);
    let k = p.folding_factor as int;
    let pre = query_fibre(t, proof, p, i, q);
    let leaves = proof.merkle_opened_leaves@[i as int]@[q]@;
    let paths = proof.merkle_paths@[i as int]@[q]@;
    let root = proof.round_commitments@[i as int].root.0@;
    &&& forall|j: int| 0 <= j < k ==> #[trigger] leaves[j] == proof.shift_answers@[i as int]@[q]@[j]
    &&& forall|j: int| 0 <= j < k ==> (#[trigger] paths[j]).leaf_index == pre[j]
    &&& forall|j: int| 0 <= j < k ==> opening_ok(leaves[j], #[trigger] paths[j], n, root)
    &&& !fibre_collides(round_dom(p, i), pre, ood_constraints(t, proof, p, i))
    &&& i + 1 == p.num_rounds ==> fmod(poly_eval(proof.final_polynomial@, query_point(t, proof, p, i, q)))
        == query_next_value(t, proof, p, i, q)
}

/// Round `i`, replayed from the state `t`, passes every check.
pub open spec fn round_accepts(t: Seq<u8>, proof: StirProof, p: StirParams, i: nat) -> bool {
    &&& proof.round_commitments@[i as int].tree_size == round_size(p, i)
    &&& ood_step(t, proof, p, i).0.len() == proof.ood_replies@[i as int]@.len()
    &&& forall|q: int| 0 <= q < p.repetition_schedule@[i as int] ==> #[trigger] query_accepts(t, proof, p, i, q)
}

/// The verifier accepts `proof` from the initial transcript state `t0`.
pub open spec fn accepts(t0: Seq<u8>, proof: StirProof, p: StirParams) -> bool {
    &&& shape_violation(proof, p) is None
    &&& forall|i: nat| i < p.num_rounds ==> #[trigger] round_accepts(round_start(t0, proof, p, i), proof, p, i)
    &&& proof.final_polynomial@.len() <= p.stopping_degree
}

/// The first failing check of a fibre's openings from position `j` on: an
/// opening that does not authenticate its preimage position, then an
/// opened leaf that differs from its shift answer.
pub open spec fn fibre_opening_error(
    leaves: Seq<Fp>,
    paths: Seq<MerklePath>,
    answers: Seq<Fp>,
    pre: Seq<usize>,
    n: nat,
    root: Seq<u8>,
    j: int,
) -> Option<&'static str>
    decreases pre.len() - j,
{
    if j < 0 || j >= pre.len() {
        None
    } else if !(paths[j].leaf_index == pre[j] && opening_ok(leaves[j], paths[j], n, root)) {
        Some("STIR: Merkle path failed to verify")
    } else if leaves[j] != answers[j] {
        Some("STIR: opened leaf does not match shift answer")
    } else {
        fibre_opening_error(leaves, paths, answers, pre, n, root, j + 1)
    }
}

/// The first failing check of shift query `q` of round `i`, in the
/// verifier's order: the openings, an OOD point in the fibre, then (in
/// the last round) the final polynomial's consistency.
pub open spec fn query_error(t: Seq<u8>, proof: StirProof, p: StirParams, i: nat, q: int) -> Option<&'static str> {
    let pre = query_fibre(t, proof, p, i, q);
    match fibre_opening_error(
        proof.merkle_opened_leaves@[i as int]@[q]@,
        proof.merkle_paths@[i as int]@[q]@,
        proof.shift_answers@[i as int]@[q]@,
        pre,
        round_size(p, i),
        proof.round_commitments@[i as int].root.0@,
        0,
    ) {
        Some(m) => Some(m),
        None => if fibre_collides(round_dom(p, i), pre, ood_constraints(t, proof, p, i)) {
            Some("STIR: V_ood(x_j) = 0; preimage collided with an OOD point")
        } else if i + 1 == p.num_rounds && fmod(poly_eval(proof.final_polynomial@, query_point(t, proof, p, i, q)))
            != query_next_value(t, proof, p, i, q) {
            Some("STIR: final-polynomial consistency check failed")
        } else {
            None
        },
    }
}

/// The first failing shift query of round `i` from query `q` on.
pub open spec fn first_query_error(t: Seq<u8>, proof: StirProof, p: StirParams, i: nat, q: int) -> Option<&'static str>
    decreases p.repetition_schedule@[i as int] - q,
{
    if q < 0 || q >= p.repetition_schedule@[i as int] {
        None
    } else {
        match query_error(t, proof, p, i, q) {
            Some(m) => Some(m),
            None => first_query_error(t, proof, p, i, q + 1),
        }
    }
}

/// The first failing check of round `i`: the commitment's size, the
/// number of OOD replies, then the shift queries in order.
pub open spec fn round_error(t: Seq<u8>, proof: StirProof, p: StirParams, i: nat) -> Option<&'static str> {
    if proof.round_commitments@[i as int].tree_size != round_size(p, i) {
        Some("STIR: commitment.tree_size mismatch with params")
    } else if ood_step(t, proof, p, i).0.len() != proof.ood_replies@[i as int]@.len() {
        Some("STIR: ood_replies[i].len() != params.ood_samples")
    } else {
        first_query_error(t, proof, p, i, 0)
    }
}

/// The first failing round from round `i` on, then the final polynomial's degree.
pub open spec fn first_round_error(t0: Seq<u8>, proof: StirProof, p: StirParams, i: nat) -> Option<&'static str>
    decreases p.num_rounds - i,
{
    if i >= p.num_rounds {
        if proof.final_polynomial@.len() > p.stopping_degree {
            Some("STIR: final_polynomial degree >= stopping_degree")
        } else {
            None
        }
    } else {
        match round_error(round_start(t0, proof, p, i), proof, p, i) {
            Some(m) => Some(m),
            None => first_round_error(t0, proof, p, i + 1),
        }
    }
}

/// The message of the first check the verifier fails on `proof` from the
/// initial state `t0`: a shape violation, else the first failing round,
/// else the final polynomial's degree.
pub open spec fn verify_error(t0: Seq<u8>, proof: StirProof, p: StirParams) -> Option<&'static str> {
    match shape_violation(proof, p) {
        Some(m) => Some(m),
        None => first_round_error(t0, proof, p, 0),
    }
}

/// Round `i` of an honest run, from the state `t`, on the round's data:
/// the commitment `c`, the OOD `replies`, the shift `answers` and their
/// Merkle `paths`. The round's polynomial is `f` (below `|L_i|`
/// coefficients); the replies are `f` at the drawn OOD points; every shift
/// query opens the codeword of `f` at its fibre's positions; `q` is the
/// quotient of `f` by the OOD constraints (or `f` itself without any), and
/// `next` is `q` folded with `alpha_i` and degree-corrected with `r_i`.
pub open spec fn honest_round_of(
    t: Seq<u8>,
    c: StirCommitment,
    replies: Seq<Fp>,
    answers: Seq<Vec<Fp>>,
    paths: Seq<Vec<MerklePath>>,
    p: StirParams,
    i: nat,
    f: Seq<Fp>,
    q: Seq<Fp>,
    next: Seq<Fp>,
) -> bool {
    let d = round_dom(p, i);
    let n = round_size(p, i);
    let k = p.folding_factor as nat;
    let xs = ood_step_of(t, c.root.0@, p, i).0;
    let pts = zip_pairs(xs, replies);
    let pos = shift_positions_of(t, c.root.0@, replies, p, i);
    let absorbed = replies_absorbed_of(t, c.root.0@, replies, p, i);
    let r = squeeze_field_value(absorbed);
    let alpha = squeeze_field_value(after_squeeze_field(absorbed));
    &&& f.len() <= n
    &&& c.tree_size == n
    &&& pos.len() == p.repetition_schedule@[i as int]
    &&& forall|qq: int| 0 <= qq < pos.len() ==> (#[trigger] pos[qq]) < round_stride(p, i)
    &&& xs.len() == replies.len()
    &&& forall|o: int| 0 <= o < replies.len() ==> (#[trigger] replies[o]).val() == fmod(poly_eval(f, xs[o].val() as int))
    &&& forall|qq: int, j: int|
        0 <= qq < answers.len() && 0 <= j < k ==> (#[trigger] paths[qq]@[j]).leaf_index == preimages(pos[qq] as nat, n, k)[j]
    &&& forall|qq: int, j: int|
        0 <= qq < answers.len() && 0 <= j < k ==> #[trigger] answers[qq]@[j] == codeword(f, d)[preimages(
            pos[qq] as nat,
            n,
            k,
        )[j] as int]
    &&& pts.len() == 0 ==> q == f
    &&& pts.len() > 0 ==> forall|x: int| #[trigger] fmod(poly_eval(q, x) * vanishing(pts, x, pts.len())) == fmod(
        poly_eval(f, x) - lagrange_value(pts, x),
    )
    &&& q.len() <= n
    &&& forall|j: int| 0 <= j < q.len() ==> (#[trigger] q[j]).val() < MODULUS
    &&& forall|x: int| #[trigger] fmod(poly_eval(next, x)) == fmod(
        poly_eval(strip(fold_coeffs(q, k, alpha as int)), x) * g_r_value(r as int, x, correction_degree(p, i, xs.len())),
    )
}

/// `honest_round_of` on round `i` of `proof`.
pub open spec fn honest_round(t: Seq<u8>, proof: StirProof, p: StirParams, i: nat, f: Seq<Fp>, q: Seq<Fp>, next: Seq<Fp>) -> bool {
    honest_round_of(
        t,
        proof.round_commitments@[i as int],
        proof.ood_replies@[i as int]@,
        proof.shift_answers@[i as int]@,
        proof.merkle_paths@[i as int]@,
        p,
        i,
        f,
        q,
        next,
    )
}

/// `proof` is the record of an honest run from the state `t0` on the
/// polynomial `f0`: `polys[i]` is the polynomial of round `i`, `quots[i]`
/// its quotient, and the final polynomial is `polys[M]`.
pub open spec fn honest_run(t0: Seq<u8>, proof: StirProof, p: StirParams, f0: Seq<Fp>, polys: Seq<Seq<Fp>>, quots: Seq<Seq<Fp>>) -> bool {
    &&& polys.len() == p.num_rounds + 1
    &&& quots.len() == p.num_rounds
    &&& polys[0] == f0
    &&& proof.final_polynomial@ == polys[p.num_rounds as int]
    &&& forall|i: nat|
        i < p.num_rounds ==> #[trigger] honest_round(
            round_start(t0, proof, p, i),
            proof,
            p,
            i,
            polys[i as int],
            quots[i as int],
            polys[i + 1 as int],
        )
}

} // verus!
