//! The STIR verifier: replays the transcript, checks the shape of the
//! proof, every Merkle opening of the shift queries, the local folding
//! consistency in the last round against the final polynomial, and the
//! final polynomial's degree.
use crate::arith::{lemma_mod_add_congr, lemma_mod_mul_congr};
use crate::degree_correction::eval_g_r;
use crate::domain::{lemma_domain_wf, EvaluationDomain};
use crate::fft::{ifft_subgroup, ifft_values, inv_val, is_pow2, is_primitive_root};
use crate::field::{fmod, group_order, lemma_from_val, lemma_generator_half_order, lemma_val_eq, Fp, MODULUS, MULTIPLICATIVE_GENERATOR};
use crate::interpolate::{distinct_xs, lagrange_interpolate, lagrange_value};
use crate::bytes::le_bytes;
use crate::merkle::{ceil_log2, digest_seq, leaf_hash, path_root, MerklePath, MerkleRoot, MerkleTree};
use crate::ood::{sample_ood_points, zip_pairs};
use crate::quotient::{quotient_value, vanishing};
use crate::degree_correction::g_r_value;
use crate::params::{first_violation, tz32, StirParams};
use crate::prover::{domains_match, honest_shape, preimage_indices_in_l_i, prover_params_ok};
use crate::stir_domain::{domains_fit, lemma_generator_power_nonzero, round_dom, round_log_size, round_offset, StirDomain};
use crate::interaction::{
    accepts, comb_randomness, correction_degree, fibre_opening_error, first_query_error, first_round_error, fold_randomness,
    ood_step, queries_frames, query_accepts, query_error, query_fibre, replies_absorbed, round_accepts, round_error,
    round_size, round_start, round_stride, shift_positions, verify_error,
};
use crate::stir_proof::StirProof;
use crate::sums::sum;
use crate::transcript::{after_squeeze_indices, frame, Transcript};
use vstd::arithmetic::div_mod::{lemma_mod_twice, lemma_small_mod};
use vstd::arithmetic::power::pow;
use vstd::arithmetic::power2::pow2;
use vstd::prelude::*;

verus! {

/// The first violated shape condition of one query `q` of round `i`, if any.
pub open spec fn query_shape_violation(proof: StirProof, p: StirParams, i: int, q: nat) -> Option<&'static str>
    decreases p.repetition_schedule@[i] - q,
{
    if q >= p.repetition_schedule@[i] {
        None
    } else if proof.shift_answers@[i]@[q as int]@.len() != p.folding_factor {
        Some("STIR: shift_answers[i][q].len() != folding_factor")
    } else if proof.merkle_paths@[i]@[q as int]@.len() != p.folding_factor {
        Some("STIR: merkle_paths[i][q].len() != folding_factor")
    } else if proof.merkle_opened_leaves@[i]@[q as int]@.len() != p.folding_factor {
        Some("STIR: merkle_opened_leaves[i][q].len() != folding_factor")
    } else {
        query_shape_violation(proof, p, i, q + 1)
    }
}

/// The first violated shape condition of rounds `i, i + 1, ...`, if any.
pub open spec fn round_shape_violation(proof: StirProof, p: StirParams, i: nat) -> Option<&'static str>
    decreases p.num_rounds - i,
{
    if i >= p.num_rounds {
        None
    } else if proof.ood_replies@[i as int]@.len() != p.ood_samples {
        Some("STIR: ood_replies[i].len() != params.ood_samples")
    } else if proof.shift_answers@[i as int]@.len() != p.repetition_schedule@[i as int] {
        Some("STIR: shift_answers[i].len() != repetition_schedule[i]")
    } else if proof.merkle_paths@[i as int]@.len() != p.repetition_schedule@[i as int] {
        Some("STIR: merkle_paths[i].len() != repetition_schedule[i]")
    } else if proof.merkle_opened_leaves@[i as int]@.len() != p.repetition_schedule@[i as int] {
        Some("STIR: merkle_opened_leaves[i].len() != repetition_schedule[i]")
    } else {
        match query_shape_violation(proof, p, i as int, 0) {
            Some(m) => Some(m),
            None => round_shape_violation(proof, p, i + 1),
        }
    }
}

/// The first violated shape condition of a proof, in the order the verifier checks them.
pub open spec fn shape_violation(proof: StirProof, p: StirParams) -> Option<&'static str> {
    if proof.round_commitments@.len() != p.num_rounds {
        Some("STIR: round_commitments.len() != params.num_rounds")
    } else if proof.ood_replies@.len() != p.num_rounds {
        Some("STIR: ood_replies.len() != params.num_rounds")
    } else if proof.shift_answers@.len() != p.num_rounds {
        Some("STIR: shift_answers.len() != params.num_rounds")
    } else if proof.merkle_paths@.len() != p.num_rounds {
        Some("STIR: merkle_paths.len() != params.num_rounds")
    } else if proof.merkle_opened_leaves@.len() != p.num_rounds {
        Some("STIR: merkle_opened_leaves.len() != params.num_rounds")
    } else if proof.pow_nonces@.len() != 0 {
        Some("STIR: pow_nonces must be empty in this implementation")
    } else {
        round_shape_violation(proof, p, 0)
    }
}

/// No shape violation from query `q` on means every query from `q` on has `k` entries everywhere.
proof fn lemma_query_shape(proof: StirProof, p: StirParams, i: int, q: nat)
    requires
        query_shape_violation(proof, p, i, q) is None,
    ensures
        forall|qq: int| q <= qq < p.repetition_schedule@[i] ==> {
            &&& (#[trigger] proof.shift_answers@[i]@[qq])@.len() == p.folding_factor
            &&& proof.merkle_paths@[i]@[qq]@.len() == p.folding_factor
            &&& proof.merkle_opened_leaves@[i]@[qq]@.len() == p.folding_factor
        },
    decreases p.repetition_schedule@[i] - q,
{
    if q < p.repetition_schedule@[i] {
        lemma_query_shape(proof, p, i, q + 1);
    }
}

/// No shape violation from round `i` on means the rounds from `i` on have the scheduled shape.
proof fn lemma_round_shape(proof: StirProof, p: StirParams, i: nat)
    requires
        round_shape_violation(proof, p, i) is None,
    ensures
        forall|ii: int| i <= ii < p.num_rounds ==> {
            &&& (#[trigger] proof.ood_replies@[ii])@.len() == p.ood_samples
            &&& proof.shift_answers@[ii]@.len() == p.repetition_schedule@[ii]
            &&& proof.merkle_paths@[ii]@.len() == p.repetition_schedule@[ii]
            &&& proof.merkle_opened_leaves@[ii]@.len() == p.repetition_schedule@[ii]
        },
        forall|ii: int, qq: int| i <= ii < p.num_rounds && 0 <= qq < p.repetition_schedule@[ii] ==> {
            &&& (#[trigger] proof.shift_answers@[ii]@[qq])@.len() == p.folding_factor
            &&& proof.merkle_paths@[ii]@[qq]@.len() == p.folding_factor
            &&& proof.merkle_opened_leaves@[ii]@[qq]@.len() == p.folding_factor
        },
    decreases p.num_rounds - i,
{
    if i < p.num_rounds {
        lemma_query_shape(proof, p, i as int, 0);
        lemma_round_shape(proof, p, i + 1);
    }
}

/// One Merkle opening checks out: the index is inside the table, the path
/// has the table's height, and it leads from the leaf's hash to `root`.
pub open spec fn opening_ok(leaf: Fp, path: MerklePath, tree_size: nat, root: Seq<u8>) -> bool {
    &&& path.leaf_index < tree_size
    &&& path.siblings@.len() == ceil_log2(tree_size)
    &&& path_root(leaf_hash(leaf), path.leaf_index as nat, digest_seq(path.siblings@)) == root
}

/// Every opening of round `i` checks out against the round commitment,
/// and each opened leaf equals the shift answer it stands for.
pub open spec fn openings_ok(proof: StirProof, p: StirParams, i: int) -> bool {
    &&& forall|q: int, j: int|
        0 <= q < p.repetition_schedule@[i] && 0 <= j < p.folding_factor
            ==> #[trigger] proof.merkle_opened_leaves@[i]@[q]@[j] == proof.shift_answers@[i]@[q]@[j]
    &&& forall|q: int, j: int|
        0 <= q < p.repetition_schedule@[i] && 0 <= j < p.folding_factor ==> opening_ok(
            proof.merkle_opened_leaves@[i]@[q]@[j],
            #[trigger] proof.merkle_paths@[i]@[q]@[j],
            proof.round_commitments@[i].tree_size as nat,
            proof.round_commitments@[i].root.0@,
        )
}

/// The `l`-th term of a local fold: `alpha^l * (t_l * x^(-l))`.
pub open spec fn local_fold_term(t: Seq<Fp>, alpha: int, x_inv: int, l: int) -> int {
    fmod(pow(alpha, l as nat)) * fmod(t[l].val() * fmod(pow(x_inv, l as nat)))
}

/// The fold of one fibre: the inverse FFT of the `k` leaves on `<w_k>`,
/// twisted by `x_0^(-l)` and combined with powers of `alpha`.
pub open spec fn local_fold_value(leaves: Seq<Fp>, alpha: int, x_0: int, omega_k: int) -> int {
    let t = ifft_values(leaves, omega_k);
    fmod(sum(|l: int| local_fold_term(t, alpha, inv_val(x_0), l), leaves.len() as int))
}

/// The folded value at `x_0^k` from the `k` fibre values.
pub fn local_fold_at_zk(leaves: &[Fp], alpha: Fp, x_0: Fp, omega_k: Fp, k: usize) -> (r: Fp)
    requires
        leaves@.len() == k,
        is_pow2(k as nat),
        is_primitive_root(omega_k.val() as int, k as nat),
        omega_k.val() != 0,
        x_0.val() != 0,
    ensures
        r.val() == local_fold_value(leaves@, alpha.val() as int, x_0.val() as int, omega_k.val() as int),
{
    let twisted = ifft_subgroup(leaves, omega_k);
    let x_0_inv = match x_0.inverse() {
        Some(v) => v,
        None => {
            proof {
                assert(false);
            }
            Fp::one()
        },
    };
    let ghost t = twisted@;
    let ghost xi = inv_val(x_0.val() as int);
    let ghost f = |l: int| local_fold_term(t, alpha.val() as int, xi, l);
    let mut x_inv_pow = Fp::one();
    let mut alpha_pow = Fp::one();
    let mut acc = Fp::zero();
    proof {
        use_type_invariant(&alpha);
        crate::field::lemma_canonical(alpha);
        use_type_invariant(&x_0_inv);
        crate::field::lemma_canonical(x_0_inv);
        vstd::arithmetic::power::lemma_pow0(alpha.val() as int);
        vstd::arithmetic::power::lemma_pow0(xi);
        lemma_small_mod(1, MODULUS as nat);
        lemma_small_mod(0, MODULUS as nat);
        vstd::arithmetic::div_mod::lemma_mod_bound(pow(x_0.val() as int, (MODULUS - 2) as nat), MODULUS as int);
    }
    let mut l: usize = 0;
    while l < twisted.len()
        invariant
            l <= twisted@.len(),
            twisted@ == t,
            t.len() == k,
            alpha.val() < MODULUS,
            x_0_inv.val() == xi,
            xi == fmod(xi),
            alpha_pow.val() == fmod(pow(alpha.val() as int, l as nat)),
            x_inv_pow.val() == fmod(pow(xi, l as nat)),
            acc.val() == fmod(sum(f, l as int)),
            f == (|ll: int| local_fold_term(t, alpha.val() as int, xi, ll)),
        decreases twisted@.len() - l,
    {
        let t_l = twisted[l];
        let r_l = t_l * x_inv_pow;
        let term = alpha_pow * r_l;
        proof {
            let m = MODULUS as int;
            lemma_from_val((t_l.val() * x_inv_pow.val()) % (MODULUS as nat));
            lemma_from_val((alpha_pow.val() * r_l.val()) % (MODULUS as nat));
            lemma_from_val((acc.val() + term.val()) % (MODULUS as nat));
            assert(f(l as int) == alpha_pow.val() * r_l.val());
            lemma_mod_add_congr(sum(f, l as int), acc.val() as int, f(l as int), term.val() as int, m);
            lemma_mod_twice(sum(f, l as int), m);
            lemma_mod_twice(f(l as int), m);
        }
        acc = acc + term;
        let next_alpha = alpha_pow * alpha;
        let next_x = x_inv_pow * x_0_inv;
        proof {
            lemma_from_val((alpha_pow.val() * alpha.val()) % (MODULUS as nat));
            lemma_from_val((x_inv_pow.val() * x_0_inv.val()) % (MODULUS as nat));
            lemma_small_mod(alpha.val(), MODULUS as nat);
            crate::decode::lemma_pow_step_mod(alpha.val() as int, l as nat, alpha_pow.val() as int);
            crate::decode::lemma_pow_step_mod(xi, l as nat, x_inv_pow.val() as int);
        }
        alpha_pow = next_alpha;
        x_inv_pow = next_x;
        l = l + 1;
    }
    acc
}

/// The value at `at` of the polynomial through the points `(points[i], values[i])`.
pub fn lagrange_eval(points: &[Fp], values: &[Fp], at: Fp) -> (r: Fp)
    requires
        points@.len() == values@.len(),
        1 <= points@.len() < usize::MAX,
        distinct_xs(zip_pairs(points@, values@)),
    ensures
        r.val() == fmod(lagrange_value(zip_pairs(points@, values@), at.val() as int)),
{
    let mut pairs: Vec<(Fp, Fp)> = Vec::new();
    let mut i: usize = 0;
    while i < points.len()
        invariant
            i <= points@.len(),
            points@.len() == values@.len(),
            pairs@ == zip_pairs(points@, values@).subrange(0, i as int),
        decreases points@.len() - i,
    {
        pairs.push((points[i], values[i]));
        i = i + 1;
        assert(pairs@ =~= zip_pairs(points@, values@).subrange(0, i as int));
    }
    assert(pairs@ =~= zip_pairs(points@, values@));
    let poly = lagrange_interpolate(pairs.as_slice());
    poly.evaluate(at)
}

/// Every point of every round domain is non-zero.
proof fn lemma_domain_point_nonzero(d: EvaluationDomain, i: nat, j: int)
    requires
        d.wf(),
        d.spec_offset().val() == round_offset(i),
        j >= 0,
    ensures
        d.point(j) != 0,
{
    lemma_domain_wf(d);
    let m = MODULUS as int;
    let g = MULTIPLICATIVE_GENERATOR as int;
    let e2 = group_order() / pow2(d.spec_log_size());
    let e1: nat = if i == 0 {
        0
    } else {
        pow2((i - 1) as nat)
    };
    let w = d.spec_generator().val() as int;
    let c = d.spec_offset().val() as int;
    assert(w == pow(g, e2) % m);
    vstd::arithmetic::power::lemma_pow_mod_noop(pow(g, e2), j as nat, m);
    vstd::arithmetic::power::lemma_pow_multiplies(g, e2, j as nat);
    assert(pow(w, j as nat) % m == pow(g, e2 * j as nat) % m);
    vstd::arithmetic::power::lemma_pow0(g);
    assert(c % m == pow(g, e1) % m) by {
        lemma_small_mod(c as nat, MODULUS as nat);
        if i == 0 {
            lemma_small_mod(1, MODULUS as nat);
        } else {
            lemma_mod_twice(pow(g, e1), m);
        }
    }
    lemma_mod_mul_congr(c, pow(g, e1), pow(w, j as nat), pow(g, e2 * j as nat), m);
    vstd::arithmetic::power::lemma_pow_adds(g, e1, e2 * j as nat);
    lemma_generator_power_nonzero(e1 + e2 * j as nat);
}

/// The framings of the 8-byte encodings of field elements, absorbed one after the other.
pub open spec fn field_frames(xs: Seq<Fp>) -> Seq<u8>
    decreases xs.len(),
{
    if xs.len() == 0 {
        Seq::empty()
    } else {
        field_frames(xs.drop_last()) + frame(le_bytes(xs.last().val(), 8))
    }
}

/// Check the `k` openings of one fibre against `root` and absorb the opened leaves.
fn check_fibre_openings(
    root: MerkleRoot,
    preimage_idxs: &Vec<usize>,
    leaves_q: &Vec<Fp>,
    paths_q: &Vec<MerklePath>,
    answers_q: &Vec<Fp>,
    n_i: usize,
    transcript: &mut Transcript,
) -> (r: Result<(), &'static str>)
    requires
        leaves_q@.len() == preimage_idxs@.len(),
        paths_q@.len() == preimage_idxs@.len(),
        answers_q@.len() == preimage_idxs@.len(),
        n_i <= usize::MAX / 2 + 1,
    ensures
        r is Ok ==> final(transcript)@ == old(transcript)@ + field_frames(leaves_q@),
        r == match fibre_opening_error(leaves_q@, paths_q@, answers_q@, preimage_idxs@, n_i as nat, root.0@, 0) {
            None => Ok::<(), &'static str>(()),
            Some(m) => Err(m),
        },
        r is Ok <==> {
            &&& forall|j: int| 0 <= j < preimage_idxs@.len() ==> #[trigger] leaves_q@[j] == answers_q@[j]
            &&& forall|j: int| 0 <= j < preimage_idxs@.len() ==> (#[trigger] paths_q@[j]).leaf_index == preimage_idxs@[j]
            &&& forall|j: int|
                0 <= j < preimage_idxs@.len() ==> opening_ok(leaves_q@[j], #[trigger] paths_q@[j], n_i as nat, root.0@)
        },
{
    let k = preimage_idxs.len();
    let mut j: usize = 0;
    while j < k
        invariant
            j <= k,
            k == preimage_idxs@.len(),
            leaves_q@.len() == k,
            paths_q@.len() == k,
            answers_q@.len() == k,
            n_i <= usize::MAX / 2 + 1,
            transcript@ == old(transcript)@ + field_frames(leaves_q@.subrange(0, j as int)),
            fibre_opening_error(leaves_q@, paths_q@, answers_q@, preimage_idxs@, n_i as nat, root.0@, 0)
                == fibre_opening_error(leaves_q@, paths_q@, answers_q@, preimage_idxs@, n_i as nat, root.0@, j as int),
            forall|jj: int| 0 <= jj < j ==> #[trigger] leaves_q@[jj] == answers_q@[jj],
            forall|jj: int| 0 <= jj < j ==> (#[trigger] paths_q@[jj]).leaf_index == preimage_idxs@[jj],
            forall|jj: int| 0 <= jj < j ==> opening_ok(leaves_q@[jj], #[trigger] paths_q@[jj], n_i as nat, root.0@),
        decreases k - j,
    {
        let leaf = leaves_q[j];
        let pth = &paths_q[j];
        if !MerkleTree::verify(root, preimage_idxs[j], leaf, pth, n_i) {
            proof {
                assert(paths_q@[j as int] == *pth);
            }
            return Err("STIR: Merkle path failed to verify");
        }
        let answer = answers_q[j];
        proof {
            lemma_val_eq(leaf, answer);
        }
        if leaf.as_u64() != answer.as_u64() {
            proof {
                assert(paths_q@[j as int] == *pth);
            }
            return Err("STIR: opened leaf does not match shift answer");
        }
        transcript.absorb_field(leaf);
        proof {
            assert(paths_q@[j as int] == *pth);
            assert(leaves_q@[j as int] == leaf);
            assert(answers_q@[j as int] == answer);
            assert(leaf.val() == answer.val());
            assert(leaf == answer);
            assert(leaves_q@[j as int] == answers_q@[j as int]);
            let pre = leaves_q@.subrange(0, j as int);
            let post = leaves_q@.subrange(0, j + 1);
            assert(post.drop_last() =~= pre);
            assert(post.last() == leaf);
            assert((old(transcript)@ + field_frames(pre)) + frame(le_bytes(leaf.val(), 8)) =~= old(transcript)@ + (field_frames(pre) + frame(le_bytes(leaf.val(), 8))));
        }
        j = j + 1;
    }
    proof {
        assert(leaves_q@.subrange(0, k as int) =~= leaves_q@);
    }
    Ok(())
}

/// The quotient values at the fibre's points: `(answer_j - P(x_j)) / V(x_j)`,
/// or the answers themselves when there are no OOD constraints.
pub open spec fn fibre_quotients(d: EvaluationDomain, idxs: Seq<usize>, answers: Seq<Fp>, pts: Seq<(Fp, Fp)>) -> Seq<Fp> {
    if pts.len() == 0 {
        answers
    } else {
        Seq::new(
            answers.len(),
            |j: int| Fp::from_val(quotient_value(answers[j].val() as int, pts, d.point(idxs[j] as int)) as nat),
        )
    }
}

/// Some point of the fibre is one of the OOD points, so the quotient is undefined there.
pub open spec fn fibre_collides(d: EvaluationDomain, idxs: Seq<usize>, pts: Seq<(Fp, Fp)>) -> bool {
    pts.len() > 0 && exists|j: int| 0 <= j < idxs.len() && #[trigger] vanishing(pts, d.point(idxs[j] as int), pts.len()) == 0
}

/// The next round's value at `x_0^k`: the local fold of the fibre's quotient
/// values, times the degree-correction factor `g_r(x_0^k)`.
pub open spec fn fibre_next(
    d: EvaluationDomain,
    idxs: Seq<usize>,
    answers: Seq<Fp>,
    pts: Seq<(Fp, Fp)>,
    alpha: int,
    r: int,
    omega: int,
    e: nat,
) -> int {
    let x0 = d.point(idxs[0] as int);
    let z = fmod(pow(x0, idxs.len()));
    fmod(local_fold_value(fibre_quotients(d, idxs, answers, pts), alpha, x0, omega) * g_r_value(r, z, e))
}

/// The point `x_0^k` of the next domain over the fibre, and the next round's value there.
fn fibre_next_value(
    domain_i: &EvaluationDomain,
    preimage_idxs: &Vec<usize>,
    answers_q: &Vec<Fp>,
    ood_points_i: &Vec<Fp>,
    replies: &Vec<Fp>,
    alpha_i: Fp,
    r_comb_i: Fp,
    omega_k: Fp,
    e_i: usize,
    Ghost(round): Ghost<nat>,
) -> (r: Result<(Fp, Fp), &'static str>)
    requires
        domain_i.wf(),
        domain_i.spec_offset().val() == round_offset(round),
        answers_q@.len() == preimage_idxs@.len(),
        is_pow2(preimage_idxs@.len()),
        preimage_idxs@.len() < u64::MAX,
        is_primitive_root(omega_k.val() as int, preimage_idxs@.len()),
        omega_k.val() != 0,
        ood_points_i@.len() == replies@.len(),
        ood_points_i@.len() < usize::MAX,
        forall|x: int, y: int| 0 <= x < y < ood_points_i@.len() ==> ood_points_i@[x] != ood_points_i@[y],
        e_i < u64::MAX,
    ensures
        ({
            let pts = zip_pairs(ood_points_i@, replies@);
            match r {
                Err(m) => fibre_collides(*domain_i, preimage_idxs@, pts)
                    && m == "STIR: V_ood(x_j) = 0; preimage collided with an OOD point",
                Ok((z, v)) => !fibre_collides(*domain_i, preimage_idxs@, pts)
                    && z.val() == fmod(pow(domain_i.point(preimage_idxs@[0] as int), preimage_idxs@.len()))
                    && v.val() == fibre_next(
                    *domain_i,
                    preimage_idxs@,
                    answers_q@,
                    pts,
                    alpha_i.val() as int,
                    r_comb_i.val() as int,
                    omega_k.val() as int,
                    e_i as nat,
                ),
            }
        }),
{
    let k = preimage_idxs.len();
    let ghost pts = zip_pairs(ood_points_i@, replies@);
    let s = ood_points_i.len();
    let mut q_at_preimages: Vec<Fp> = Vec::new();
    if s == 0 {
        let mut jj: usize = 0;
        while jj < k
            invariant
                jj <= k,
                answers_q@.len() == k,
                q_at_preimages@ == answers_q@.subrange(0, jj as int),
            decreases k - jj,
        {
            q_at_preimages.push(answers_q[jj]);
            jj = jj + 1;
            assert(q_at_preimages@ =~= answers_q@.subrange(0, jj as int));
        }
        assert(q_at_preimages@ =~= answers_q@);
    } else {
        proof {
            assert forall|x: int, y: int| 0 <= x < y < pts.len() implies pts[x].0 != pts[y].0 by {}
        }
        let mut jj: usize = 0;
        while jj < k
            invariant
                jj <= k,
                k == preimage_idxs@.len(),
                answers_q@.len() == k,
                q_at_preimages@.len() == jj,
                ood_points_i@.len() == s,
                s >= 1,
                s < usize::MAX,
                replies@.len() == s,
                pts == zip_pairs(ood_points_i@, replies@),
                distinct_xs(pts),
                forall|j: int| 0 <= j < jj ==> #[trigger] vanishing(pts, domain_i.point(preimage_idxs@[j] as int), s as nat) != 0,
                forall|j: int| 0 <= j < jj ==> (#[trigger] q_at_preimages@[j]).val() == quotient_value(
                    answers_q@[j].val() as int,
                    pts,
                    domain_i.point(preimage_idxs@[j] as int),
                ),
            decreases k - jj,
        {
            let x_j = domain_i.element(preimage_idxs[jj]);
            let p_at_xj = lagrange_eval(ood_points_i.as_slice(), replies.as_slice(), x_j);
            let mut v_at_xj = Fp::one();
            let mut z: usize = 0;
            proof {
                lemma_small_mod(1, MODULUS as nat);
            }
            while z < ood_points_i.len()
                invariant
                    z <= ood_points_i@.len(),
                    pts == zip_pairs(ood_points_i@, replies@),
                    v_at_xj.val() == vanishing(pts, x_j.val() as int, z as nat),
                decreases ood_points_i@.len() - z,
            {
                let factor = x_j - ood_points_i[z];
                let next = v_at_xj * factor;
                proof {
                    lemma_from_val(((x_j.val() - ood_points_i@[z as int].val()) % (MODULUS as int)) as nat);
                    lemma_from_val((v_at_xj.val() * factor.val()) % (MODULUS as nat));
                }
                v_at_xj = next;
                z = z + 1;
            }
            let v_inv = match v_at_xj.inverse() {
                Some(v) => v,
                None => {
                    proof {
                        assert(vanishing(pts, domain_i.point(preimage_idxs@[jj as int] as int), pts.len()) == 0);
                    }
                    return Err("STIR: V_ood(x_j) = 0; preimage collided with an OOD point");
                },
            };
            let numer = answers_q[jj] - p_at_xj;
            let qv = numer * v_inv;
            proof {
                lemma_from_val(((answers_q@[jj as int].val() - p_at_xj.val()) % (MODULUS as int)) as nat);
                lemma_from_val((numer.val() * v_inv.val()) % (MODULUS as nat));
            }
            q_at_preimages.push(qv);
            jj = jj + 1;
        }
        proof {
            assert forall|j: int| 0 <= j < k implies q_at_preimages@[j] == fibre_quotients(*domain_i, preimage_idxs@, answers_q@, pts)[j] by {
                let qv = quotient_value(answers_q@[j].val() as int, pts, domain_i.point(preimage_idxs@[j] as int));
                lemma_from_val(qv as nat);
                lemma_val_eq(q_at_preimages@[j], Fp::from_val(qv as nat));
            }
            assert(q_at_preimages@ =~= fibre_quotients(*domain_i, preimage_idxs@, answers_q@, pts));
            assert(!fibre_collides(*domain_i, preimage_idxs@, pts));
        }
    }
    let x_0 = domain_i.element(preimage_idxs[0]);
    let z_k = x_0.pow(k as u64);
    proof {
        lemma_domain_point_nonzero(*domain_i, round, preimage_idxs@[0] as int);
    }
    let g_i_at_zk = local_fold_at_zk(q_at_preimages.as_slice(), alpha_i, x_0, omega_k, k);
    let g_r_at_zk = eval_g_r(r_comb_i, z_k, e_i);
    let f_ip1_at_zk = g_i_at_zk * g_r_at_zk;
    proof {
        lemma_from_val((g_i_at_zk.val() * g_r_at_zk.val()) % (MODULUS as nat));
    }
    Ok((z_k, f_ip1_at_zk))
}

/// Queries `q, q + 1, ...` of round `i` of an honest proof have no shape violation.
proof fn lemma_honest_queries(proof: StirProof, p: StirParams, i: int, q: nat)
    requires
        0 <= i < p.num_rounds,
        honest_shape(proof, p),
    ensures
        query_shape_violation(proof, p, i, q) is None,
    decreases p.repetition_schedule@[i] - q,
{
    reveal(honest_shape);
    if q < p.repetition_schedule@[i] {
        assert(proof.shift_answers@[i]@[q as int]@.len() == p.folding_factor);
        lemma_honest_queries(proof, p, i, q + 1);
    }
}

/// Rounds `i, i + 1, ...` of an honest proof with full OOD replies have no shape violation.
proof fn lemma_honest_rounds(proof: StirProof, p: StirParams, i: nat)
    requires
        honest_shape(proof, p),
        forall|ii: int| 0 <= ii < p.num_rounds ==> (#[trigger] proof.ood_replies@[ii])@.len() == p.ood_samples,
    ensures
        round_shape_violation(proof, p, i) is None,
    decreases p.num_rounds - i,
{
    reveal(honest_shape);
    if i < p.num_rounds {
        assert(proof.ood_replies@[i as int]@.len() == p.ood_samples);
        lemma_honest_queries(proof, p, i as int, 0);
        lemma_honest_rounds(proof, p, i + 1);
    }
}

/// An honest proof whose rounds each carry the full `s` OOD replies has
/// exactly the shape the verifier asks for, and every Merkle opening in it
/// passes the verifier's opening checks.
pub proof fn lemma_honest_openings_pass(proof: StirProof, p: StirParams)
    requires
        honest_shape(proof, p),
        forall|i: int| 0 <= i < p.num_rounds ==> (#[trigger] proof.ood_replies@[i])@.len() == p.ood_samples,
    ensures
        shape_violation(proof, p) is None,
        forall|i: int| 0 <= i < p.num_rounds ==> #[trigger] openings_ok(proof, p, i),
{
    reveal(honest_shape);
    lemma_honest_rounds(proof, p, 0);
    assert forall|i: int| 0 <= i < p.num_rounds implies #[trigger] openings_ok(proof, p, i) by {
        assert forall|q: int, j: int|
            0 <= q < p.repetition_schedule@[i] && 0 <= j < p.folding_factor implies #[trigger] proof.merkle_opened_leaves@[i]@[q]@[j]
            == proof.shift_answers@[i]@[q]@[j] by {
            assert(proof.merkle_opened_leaves@[i]@[q]@ == proof.shift_answers@[i]@[q]@);
        }
        assert forall|q: int, j: int|
            0 <= q < p.repetition_schedule@[i] && 0 <= j < p.folding_factor implies opening_ok(
            proof.merkle_opened_leaves@[i]@[q]@[j],
            #[trigger] proof.merkle_paths@[i]@[q]@[j],
            proof.round_commitments@[i].tree_size as nat,
            proof.round_commitments@[i].root.0@,
        ) by {
            let path = proof.merkle_paths@[i]@[q]@[j];
            assert(path.leaf_index < proof.round_commitments@[i].tree_size);
        }
    }
}

/// The verifier's state.
pub struct StirVerifier {
    /// The protocol parameters.
    pub params: StirParams,
    /// The domains `L_0, ..., L_M`.
    pub stir_domain: StirDomain,
}

impl StirVerifier {
    /// The verifier is consistent: valid parameters and their domain chain.
    pub open spec fn wf(self) -> bool {
        &&& prover_params_ok(self.params)
        &&& domains_match(self.stir_domain, self.params)
    }

    /// A verifier for valid `params` whose domain chain fits; it is ready to
    /// verify when the parameters also meet `prover_params_ok`.
    pub fn new(params: StirParams) -> (r: StirVerifier)
        requires
            domains_fit(params),
            first_violation(params) is None,
        ensures
            r.params == params,
            domains_match(r.stir_domain, params),
            prover_params_ok(params) ==> r.wf(),
    {
        let stir_domain = StirDomain::new(&params);
        StirVerifier { params, stir_domain }
    }

    /// The shape checks of `verify`, in its order.
    #[verifier::loop_isolation(false)]
    fn check_shape(&self, proof: &StirProof) -> (r: Result<(), &'static str>)
        requires
            self.wf(),
        ensures
            match shape_violation(*proof, self.params) {
                None => r is Ok,
                Some(m) => r == Err::<(), &'static str>(m),
            },
    {
        let num_rounds = self.params.num_rounds as usize;
        let s = self.params.ood_samples as usize;
        let k = self.params.folding_factor as usize;
        if proof.round_commitments.len() != num_rounds {
            return Err("STIR: round_commitments.len() != params.num_rounds");
        }
        if proof.ood_replies.len() != num_rounds {
            return Err("STIR: ood_replies.len() != params.num_rounds");
        }
        if proof.shift_answers.len() != num_rounds {
            return Err("STIR: shift_answers.len() != params.num_rounds");
        }
        if proof.merkle_paths.len() != num_rounds {
            return Err("STIR: merkle_paths.len() != params.num_rounds");
        }
        if proof.merkle_opened_leaves.len() != num_rounds {
            return Err("STIR: merkle_opened_leaves.len() != params.num_rounds");
        }
        if proof.pow_nonces.len() != 0 {
            return Err("STIR: pow_nonces must be empty in this implementation");
        }
        let ghost p = self.params;
        let mut i: usize = 0;
        while i < num_rounds
            invariant
                i <= num_rounds,
                num_rounds == p.num_rounds,
                p == self.params,
                self.wf(),
                s == p.ood_samples,
                k == p.folding_factor,
                proof.ood_replies@.len() == num_rounds,
                proof.shift_answers@.len() == num_rounds,
                proof.merkle_paths@.len() == num_rounds,
                proof.merkle_opened_leaves@.len() == num_rounds,
                shape_violation(*proof, p) == round_shape_violation(*proof, p, i as nat),
            decreases num_rounds - i,
        {
            if proof.ood_replies[i].len() != s {
                return Err("STIR: ood_replies[i].len() != params.ood_samples");
            }
            let t_i = self.params.repetition_schedule[i] as usize;
            if proof.shift_answers[i].len() != t_i {
                return Err("STIR: shift_answers[i].len() != repetition_schedule[i]");
            }
            if proof.merkle_paths[i].len() != t_i {
                return Err("STIR: merkle_paths[i].len() != repetition_schedule[i]");
            }
            if proof.merkle_opened_leaves[i].len() != t_i {
                return Err("STIR: merkle_opened_leaves[i].len() != repetition_schedule[i]");
            }
            let mut q: usize = 0;
            while q < t_i
                invariant
                    q <= t_i,
                    i < num_rounds,
                    t_i == p.repetition_schedule@[i as int],
                    k == p.folding_factor,
                    proof.shift_answers@.len() == num_rounds,
                    proof.merkle_paths@.len() == num_rounds,
                    proof.merkle_opened_leaves@.len() == num_rounds,
                    num_rounds == p.num_rounds,
                    shape_violation(*proof, p) == round_shape_violation(*proof, p, i as nat),
                    proof.ood_replies@[i as int]@.len() == p.ood_samples,
                    proof.shift_answers@[i as int]@.len() == t_i,
                    proof.merkle_paths@[i as int]@.len() == t_i,
                    proof.merkle_opened_leaves@[i as int]@.len() == t_i,
                    query_shape_violation(*proof, p, i as int, 0) == query_shape_violation(*proof, p, i as int, q as nat),
                decreases t_i - q,
            {
                if proof.shift_answers[i][q].len() != k {
                    proof {
                        assert(query_shape_violation(*proof, p, i as int, q as nat) == Some("STIR: shift_answers[i][q].len() != folding_factor"));
                        assert(round_shape_violation(*proof, p, i as nat) == Some("STIR: shift_answers[i][q].len() != folding_factor"));
                    }
                    return Err("STIR: shift_answers[i][q].len() != folding_factor");
                }
                if proof.merkle_paths[i][q].len() != k {
                    proof {
                        assert(query_shape_violation(*proof, p, i as int, q as nat) == Some("STIR: merkle_paths[i][q].len() != folding_factor"));
                        assert(round_shape_violation(*proof, p, i as nat) == Some("STIR: merkle_paths[i][q].len() != folding_factor"));
                    }
                    return Err("STIR: merkle_paths[i][q].len() != folding_factor");
                }
                if proof.merkle_opened_leaves[i][q].len() != k {
                    proof {
                        assert(query_shape_violation(*proof, p, i as int, q as nat) == Some("STIR: merkle_opened_leaves[i][q].len() != folding_factor"));
                        assert(round_shape_violation(*proof, p, i as nat) == Some("STIR: merkle_opened_leaves[i][q].len() != folding_factor"));
                    }
                    return Err("STIR: merkle_opened_leaves[i][q].len() != folding_factor");
                }
                q = q + 1;
            }
            proof {
                assert(query_shape_violation(*proof, p, i as int, t_i as nat) is None);
                assert(round_shape_violation(*proof, p, i as nat) == round_shape_violation(*proof, p, (i + 1) as nat));
            }
            i = i + 1;
        }
        Ok(())
    }

    /// One shift query of round `i`: check the fibre's openings (absorbing
    /// the opened leaves), derive the next round's value over the fibre,
    /// and in the last round compare it with the final polynomial.
    #[verifier::loop_isolation(false)]
    fn check_query(
        &self,
        proof: &StirProof,
        transcript: &mut Transcript,
        i: usize,
        q: usize,
        domain_i: &EvaluationDomain,
        shift_indices_i: &Vec<u32>,
        ood_points_i: &Vec<Fp>,
        alpha_i: Fp,
        r_comb_i: Fp,
        omega_k: Fp,
        e_i: usize,
        Ghost(ts): Ghost<Seq<u8>>,
    ) -> (r: Result<(), &'static str>)
        requires
            self.wf(),
            shape_violation(*proof, self.params) is None,
            i < self.params.num_rounds,
            q < self.params.repetition_schedule@[i as int],
            *domain_i == round_dom(self.params, i as nat),
            domain_i.wf(),
            domain_i.spec_size() == round_size(self.params, i as nat),
            domain_i.spec_offset().val() == round_offset(i as nat),
            round_size(self.params, i as nat) % (self.params.folding_factor as nat) == 0,
            round_size(self.params, i as nat) <= usize::MAX / 2 + 1,
            shift_indices_i@ == shift_positions(ts, *proof, self.params, i as nat),
            forall|qq: int| 0 <= qq < shift_indices_i@.len() ==> (#[trigger] shift_indices_i@[qq]) < round_stride(
                self.params,
                i as nat,
            ),
            shift_indices_i@.len() == self.params.repetition_schedule@[i as int],
            ood_points_i@ == ood_step(ts, *proof, self.params, i as nat).0,
            ood_points_i@.len() == proof.ood_replies@[i as int]@.len(),
            ood_points_i@.len() < usize::MAX,
            forall|x: int, y: int| 0 <= x < y < ood_points_i@.len() ==> ood_points_i@[x] != ood_points_i@[y],
            alpha_i.val() == fold_randomness(ts, *proof, self.params, i as nat),
            r_comb_i.val() == comb_randomness(ts, *proof, self.params, i as nat),
            omega_k.val() == fmod(pow(domain_i.spec_generator().val() as int, round_stride(self.params, i as nat))),
            is_primitive_root(omega_k.val() as int, self.params.folding_factor as nat),
            omega_k.val() != 0,
            e_i == correction_degree(self.params, i as nat, ood_points_i@.len()),
            e_i < u64::MAX,
        ensures
            r is Ok <==> query_accepts(ts, *proof, self.params, i as nat, q as int),
            r == match query_error(ts, *proof, self.params, i as nat, q as int) {
                None => Ok::<(), &'static str>(()),
                Some(m) => Err(m),
            },
            r is Ok ==> final(transcript)@ == old(transcript)@ + field_frames(
                proof.merkle_opened_leaves@[i as int]@[q as int]@,
            ),
    {
        let ghost p = self.params;
        let k = self.params.folding_factor as usize;
        let n_i = domain_i.size();
        proof {
            lemma_round_shape(*proof, p, 0);
            crate::params::lemma_tz_of_pow2(k as nat);
            crate::params::lemma_pow2_log(k as nat);
        }
        let q_idx = shift_indices_i[q] as usize;
        let preimage_idxs = preimage_indices_in_l_i(q_idx, n_i, k);
        let leaves_q = &proof.merkle_opened_leaves[i][q];
        let paths_q = &proof.merkle_paths[i][q];
        let answers_q = &proof.shift_answers[i][q];
        let commitment_i = proof.round_commitments[i];
        proof {
            assert(preimage_idxs@ == query_fibre(ts, *proof, p, i as nat, q as int));
        }
        match check_fibre_openings(commitment_i.root, &preimage_idxs, leaves_q, paths_q, answers_q, n_i, transcript) {
            Ok(()) => {},
            Err(m) => {
                return Err(m);
            },
        }
        let replies = &proof.ood_replies[i];
        let (z_k, f_ip1_at_zk) = match fibre_next_value(
            domain_i,
            &preimage_idxs,
            answers_q,
            ood_points_i,
            replies,
            alpha_i,
            r_comb_i,
            omega_k,
            e_i,
            Ghost(i as nat),
        ) {
            Ok(pair) => pair,
            Err(m) => {
                return Err(m);
            },
        };
        if i + 1 == self.params.num_rounds as usize {
            let claimed = proof.final_polynomial.evaluate(z_k);
            proof {
                lemma_val_eq(claimed, f_ip1_at_zk);
            }
            if claimed.as_u64() != f_ip1_at_zk.as_u64() {
                return Err("STIR: final-polynomial consistency check failed");
            }
        }
        Ok(())
    }

    /// Verify a STIR proof against the transcript.
    ///
    /// Accepts exactly when [`accepts`] holds of the transcript's state
    /// and the proof.
    #[verifier::loop_isolation(false)]
    #[verifier::spinoff_prover]
    #[verifier::rlimit(40)]
    pub fn verify(&self, proof: &StirProof, transcript: &mut Transcript) -> (r: Result<(), &'static str>)
        requires
            self.wf(),
        ensures
            shape_violation(*proof, self.params) matches Some(m) ==> r == Err::<(), &'static str>(m),
            shape_violation(*proof, self.params) is Some ==> final(transcript)@ == old(transcript)@,
            r == match verify_error(old(transcript)@, *proof, self.params) {
                None => Ok::<(), &'static str>(()),
                Some(m) => Err(m),
            },
            r is Ok <==> accepts(old(transcript)@, *proof, self.params),
            r is Ok ==> final(transcript)@ == after_squeeze_indices(
                round_start(old(transcript)@, *proof, self.params, self.params.num_rounds as nat),
                self.params.repetition_schedule@[self.params.num_rounds as int] as nat,
                round_size(self.params, self.params.num_rounds as nat),
            ),
    {
        let ghost t0 = transcript@;
        match self.check_shape(proof) {
            Ok(()) => {},
            Err(m) => {
                return Err(m);
            },
        }
        let ghost p = self.params;
        proof {
            lemma_round_shape(*proof, p, 0);
        }
        let num_rounds = self.params.num_rounds as usize;
        let k = self.params.folding_factor as usize;
        let ghost a = tz32(k as nat);
        proof {
            crate::params::lemma_tz_of_pow2(k as nat);
            crate::params::lemma_pow2_log(k as nat);
            vstd::arithmetic::power2::lemma2_to64();
            if a < 2 {
                assert(a == 0 || a == 1);
                assert(false);
            }
        }
        let mut i: usize = 0;
        while i < num_rounds
            invariant
                self.wf(),
                p == self.params,
                i <= num_rounds,
                num_rounds == p.num_rounds,
                k == p.folding_factor,
                k == pow2(a),
                a >= 2,
                shape_violation(*proof, p) is None,
                transcript@ == round_start(t0, *proof, p, i as nat),
                verify_error(t0, *proof, p) == first_round_error(t0, *proof, p, i as nat),
                forall|ii: nat| ii < i ==> #[trigger] round_accepts(round_start(t0, *proof, p, ii), *proof, p, ii),
            decreases num_rounds - i,
        {
            let ghost ts = transcript@;
            proof {
                crate::prover::lemma_round_arith(p, i as nat);
                crate::prover::lemma_round_dom(self.stir_domain, p, i as nat);
                crate::prover::lemma_round_dom(self.stir_domain, p, (i + 1) as nat);
            }
            let commitment_i = proof.round_commitments[i];
            let domain_i = self.stir_domain.round_domain(i);
            let n_i = domain_i.size();
            proof {
                crate::prover::lemma_pow_mono_k(k as nat, (i + 1) as nat, p.num_rounds as nat);
                crate::prover::lemma_pow_mono_k(k as nat, i as nat, p.num_rounds as nat);
                use_type_invariant(domain_i);
                lemma_domain_wf(*domain_i);
            }
            let d_i = self.params.round_degree_bound(i as u32);
            let d_ip1 = self.params.round_degree_bound((i + 1) as u32);
            if commitment_i.tree_size != n_i {
                proof {
                    assert(!round_accepts(ts, *proof, p, i as nat));
                }
                return Err("STIR: commitment.tree_size mismatch with params");
            }
            transcript.absorb_root(&commitment_i.root);
            let next_domain = self.stir_domain.round_domain(i + 1);
            let ood_points_i: Vec<Fp> = sample_ood_points(transcript, self.params.ood_samples, next_domain);
            proof {
                assert(ood_points_i@ == ood_step(ts, *proof, p, i as nat).0);
            }
            let replies = &proof.ood_replies[i];
            let ghost after_ood = transcript@;
            let mut o: usize = 0;
            while o < replies.len()
                invariant
                    o <= replies@.len(),
                    transcript@ == after_ood + field_frames(replies@.subrange(0, o as int)),
                decreases replies@.len() - o,
            {
                transcript.absorb_field(replies[o]);
                proof {
                    let pre = replies@.subrange(0, o as int);
                    let post = replies@.subrange(0, o + 1);
                    assert(post.drop_last() =~= pre);
                    assert(post.last() == replies@[o as int]);
                    assert((after_ood + field_frames(pre)) + frame(le_bytes(replies@[o as int].val(), 8)) =~= after_ood
                        + (field_frames(pre) + frame(le_bytes(replies@[o as int].val(), 8))));
                }
                o = o + 1;
            }
            proof {
                assert(replies@.subrange(0, replies@.len() as int) =~= replies@);
                assert(transcript@ == replies_absorbed(ts, *proof, p, i as nat));
            }
            let r_comb_i: Fp = transcript.squeeze_field();
            let alpha_i: Fp = transcript.squeeze_field();
            if ood_points_i.len() != replies.len() {
                proof {
                    assert(!round_accepts(ts, *proof, p, i as nat));
                }
                return Err("STIR: ood_replies[i].len() != params.ood_samples");
            }
            let t_i = self.params.repetition_schedule[i];
            let stride = n_i / k;
            assert(stride <= 0x4000_0000) by {
                vstd::arithmetic::div_mod::lemma_div_is_ordered_by_denominator(n_i as int, 4, k as int);
            }
            let shift_indices_i: Vec<u32> = transcript.sample_shift_indices(t_i, stride as u32);
            let s = ood_points_i.len();
            let g_deg_bound = if d_i >= s {
                (d_i - s + k - 1) / k
            } else {
                0
            };
            let e_i: usize = if d_ip1 >= g_deg_bound {
                d_ip1 - g_deg_bound
            } else {
                0
            };
            let omega_k = domain_i.generator().pow(stride as u64);
            proof {
                crate::fold::lemma_fold_root(*domain_i, k as nat);
                lemma_small_mod(domain_i.spec_generator().val(), MODULUS as nat);
                vstd::arithmetic::power::lemma_pow_mod_noop(domain_i.spec_generator().val() as int, stride as nat, MODULUS as int);
                assert(e_i == correction_degree(p, i as nat, s as nat));
            }
            let ghost drawn = transcript@;
            let mut q: usize = 0;
            while q < t_i as usize
                invariant
                    q <= t_i,
                    t_i == p.repetition_schedule@[i as int],
                    transcript@ == drawn + queries_frames(proof.merkle_opened_leaves@[i as int]@, q as nat),
                    first_query_error(ts, *proof, p, i as nat, 0) == first_query_error(ts, *proof, p, i as nat, q as int),
                    forall|qq: int| 0 <= qq < q ==> #[trigger] query_accepts(ts, *proof, p, i as nat, qq),
                decreases t_i - q,
            {
                match self.check_query(
                    proof,
                    transcript,
                    i,
                    q,
                    domain_i,
                    &shift_indices_i,
                    &ood_points_i,
                    alpha_i,
                    r_comb_i,
                    omega_k,
                    e_i,
                    Ghost(ts),
                ) {
                    Ok(()) => {},
                    Err(m) => {
                        proof {
                            assert(!round_accepts(ts, *proof, p, i as nat));
                            assert(first_query_error(ts, *proof, p, i as nat, q as int) == Some(m));
                            assert(round_error(ts, *proof, p, i as nat) == Some(m));
                            assert(first_round_error(t0, *proof, p, i as nat) == Some(m));
                        }
                        return Err(m);
                    },
                }
                q = q + 1;
            }
            proof {
                assert(round_accepts(ts, *proof, p, i as nat));
                assert(transcript@ == round_start(t0, *proof, p, (i + 1) as nat));
                assert(first_query_error(ts, *proof, p, i as nat, q as int) is None);
                assert(round_error(ts, *proof, p, i as nat) is None);
                assert(first_round_error(t0, *proof, p, i as nat) == first_round_error(t0, *proof, p, (i + 1) as nat));
            }
            i = i + 1;
        }
        if proof.final_polynomial.coeffs().len() > 0 {
            let d = proof.final_polynomial.coeffs().len() - 1;
            if d >= self.params.stopping_degree {
                return Err("STIR: final_polynomial degree >= stopping_degree");
            }
        }
        let t_final = self.params.repetition_schedule[num_rounds];
        let final_domain = self.stir_domain.round_domain(num_rounds);
        proof {
            use_type_invariant(final_domain);
            lemma_domain_wf(*final_domain);
            crate::prover::lemma_final_domain_small(p);
        }
        let final_size = final_domain.size() as u32;
        let _t_final_indices: Vec<u32> = transcript.sample_shift_indices(t_final, final_size);
        Ok(())
    }
}

} // verus!
