//! The STIR prover: per round, commit to the evaluations of the current
//! polynomial, answer OOD queries, derive the combination and folding
//! randomness from the transcript, compute the next polynomial (quotient,
//! fold, degree correction), and open the fibres of the shift queries.
use crate::commitment::StirCommitment;
use crate::decode::copy_coeffs;
use crate::degree_correction::poly_deg_cor;
use crate::encode::{codeword, zero_pad};
use crate::fft::{fft_on_domain, is_pow2};
use crate::field::{fmod, Fp};
use crate::fold::poly_fold;
use crate::merkle::{
    ceil_log2, digest_seq, lemma_ceil_log2_char, lemma_commit_open_verify, leaf_hash, merkle_root,
    next_pow2, pad_leaves, path_root, MerklePath,
};
use crate::ood::{evaluate_at, sample_ood_points};
use crate::params::{first_violation, log2_of, tz32, StirParams, K_MIN};
use crate::polynomial::{coef, coeffs_canonical, poly_eval, strip, UnivariatePoly};
use crate::quotient::poly_quotient;
use crate::interaction::{
    correction_degree, honest_round_of, honest_run, randomness_drawn_of, round_end_of, round_stride, lemma_queries_frames_push, lemma_round_start_prefix, ood_step_of,
    proof_leaves, proof_replies, proof_roots, queries_frames, replies_absorbed_of, round_start, round_start_from,
    shift_positions_of,
};
use crate::bytes::le_bytes;
use crate::fold::fold_coeffs;
use crate::ood::zip_pairs;
use crate::stir_verifier::field_frames;
use crate::transcript::{after_squeeze_indices, frame};
use crate::stir_domain::{domains_fit, round_dom, round_log_size, round_offset, StirDomain};
use crate::stir_proof::StirProof;
use crate::transcript::Transcript;
use vstd::arithmetic::power::pow;
use vstd::arithmetic::power2::pow2;
use vstd::prelude::*;

verus! {

/// What the prover needs of its parameters beyond `validate`: the domain
/// chain fits, `k` divides every round domain that is folded, the rate is
/// below one half, `k^M` fits a word, and the OOD points of a round fit
/// below `usize::MAX` entries.
pub open spec fn prover_params_ok(p: StirParams) -> bool {
    &&& domains_fit(p)
    &&& first_violation(p) is None
    &&& p.log_initial_domain_size < usize::BITS
    &&& pow(p.folding_factor as int, p.num_rounds as nat) <= usize::MAX
    &&& 2 * p.initial_degree_bound <= pow2(p.log_initial_domain_size as nat)
    &&& 2 * pow2(p.log_initial_domain_size as nat) <= usize::MAX
    &&& forall|i: nat| i < p.num_rounds ==> #[trigger] round_log_size(p, i) >= tz32(p.folding_factor as nat)
    &&& p.ood_samples < usize::MAX
}

/// Decide `prover_params_ok`: whether the prover and verifier can run on `p`.
pub fn check_prover_params(p: &StirParams) -> (r: bool)
    ensures
        r == prover_params_ok(*p),
{
    let tz = crate::params::trailing_zeros_u32(p.folding_factor);
    if tz < 1 {
        return false;
    }
    if p.log_initial_domain_size > crate::field::TWO_ADICITY || p.log_initial_domain_size >= usize::BITS {
        return false;
    }
    let size = crate::params::pow2_usize(p.log_initial_domain_size);
    assert((p.num_rounds as u64) * ((tz - 1) as u64) <= u64::MAX) by (nonlinear_arith)
        requires
            p.num_rounds <= u32::MAX,
            tz - 1 <= u32::MAX,
            tz >= 1,
    ;
    if (p.num_rounds as u64) * ((tz - 1) as u64) > p.log_initial_domain_size as u64 {
        return false;
    }
    if (p.num_rounds as u64) >= (usize::MAX as u64) {
        return false;
    }
    if p.validate().is_err() {
        return false;
    }
    let k = p.folding_factor as usize;
    let mut acc: usize = 1;
    let mut j: u32 = 0;
    proof {
        vstd::arithmetic::power::lemma_pow0(k as int);
    }
    while j < p.num_rounds
        invariant
            j <= p.num_rounds,
            k == p.folding_factor,
            k >= 4,
            acc == pow(k as int, j as nat),
        decreases p.num_rounds - j,
    {
        proof {
            vstd::arithmetic::power::lemma_pow_adds(k as int, j as nat, 1);
            vstd::arithmetic::power::lemma_pow1(k as int);
        }
        if acc > usize::MAX / k {
            proof {
                assert(acc * k > usize::MAX) by (nonlinear_arith)
                    requires
                        acc > usize::MAX / k,
                        k >= 4,
                ;
                lemma_pow_mono_k(k as nat, (j + 1) as nat, p.num_rounds as nat);
            }
            return false;
        }
        assert(acc * k <= usize::MAX) by (nonlinear_arith)
            requires
                acc <= usize::MAX / k,
                k >= 4,
        ;
        acc = acc * k;
        j = j + 1;
    }
    if (p.initial_degree_bound as u128) * 2 > size as u128 {
        return false;
    }
    if (size as u128) * 2 > usize::MAX as u128 {
        return false;
    }
    assert(((p.num_rounds - 1) as u64) * ((tz - 1) as u64) <= (p.num_rounds as u64) * ((tz - 1) as u64)) by (nonlinear_arith)
        requires
            p.num_rounds >= 1,
            tz >= 1,
    ;
    let last = p.log_initial_domain_size as u64 - ((p.num_rounds - 1) as u64) * ((tz - 1) as u64);
    if last < tz as u64 {
        proof {
            assert(round_log_size(*p, (p.num_rounds - 1) as nat) == last);
        }
        return false;
    }
    proof {
        assert forall|i: nat| i < p.num_rounds implies #[trigger] round_log_size(*p, i) >= tz32(p.folding_factor as nat) by {
            assert(i * (tz - 1) <= (p.num_rounds - 1) * (tz - 1)) by (nonlinear_arith)
                requires
                    i <= p.num_rounds - 1,
                    tz >= 1,
            ;
        }
    }
    if (p.ood_samples as u64) >= (usize::MAX as u64) {
        return false;
    }
    true
}

/// The `k` preimages `q + j * (n / k)` of a folded position `q`.
pub open spec fn preimages(q: nat, n: nat, k: nat) -> Seq<usize> {
    Seq::new(k, |j: int| (q + j * (n / k)) as usize)
}

/// `d_i`, the degree bound of round `i`: `d_0 / k^i` for the folding
/// rounds and the stopping degree at `i = M`.
pub open spec fn round_degree(p: StirParams, i: nat) -> int {
    if i == p.num_rounds {
        p.stopping_degree as int
    } else {
        (p.initial_degree_bound as int) / pow(p.folding_factor as int, i)
    }
}

/// `ceil((b - s) / k)`, clamped at `0`: the coefficients left of `b` after
/// the quotient by `s` points and the fold by `k`.
pub open spec fn folded_len_bound(b: int, s: nat, k: int) -> int {
    if b >= s {
        (b - s + k - 1) / k
    } else {
        0
    }
}

/// The bound `B_i` on the coefficients of the honest round-`i` polynomial
/// when round `j` quotients by `s[j]` OOD points: `B_0 = d_0` and
/// `B_{j+1} = ceil((B_j - s_j) / k) + e_j`, with the correction degree `e_j`.
pub open spec fn honest_len_bound(p: StirParams, s: Seq<nat>, i: nat) -> int
    decreases i,
{
    if i == 0 {
        p.initial_degree_bound as int
    } else {
        folded_len_bound(honest_len_bound(p, s, (i - 1) as nat), s[i - 1], p.folding_factor as int)
            + correction_degree(p, (i - 1) as nat, s[i - 1])
    }
}

/// The number of OOD replies in each round.
pub open spec fn reply_counts(replies: Seq<Seq<Fp>>) -> Seq<nat> {
    Seq::new(replies.len(), |i: int| replies[i].len())
}

/// The number of OOD replies in each round of `proof`.
pub open spec fn ood_counts(proof: StirProof) -> Seq<nat> {
    reply_counts(proof_replies(proof))
}

/// With all `s` OOD points drawn in every round, the honest final
/// polynomial is below the stopping degree.
pub open spec fn final_fits(p: StirParams) -> bool {
    honest_len_bound(p, Seq::new(p.num_rounds as nat, |j: int| p.ood_samples as nat), p.num_rounds as nat)
        <= p.stopping_degree
}

/// The bound `B_i` reads only the first `i` entries of `s`.
pub proof fn lemma_len_bound_prefix(p: StirParams, s1: Seq<nat>, s2: Seq<nat>, i: nat)
    requires
        i <= s1.len(),
        i <= s2.len(),
        forall|j: int| 0 <= j < i ==> s1[j] == s2[j],
    ensures
        honest_len_bound(p, s1, i) == honest_len_bound(p, s2, i),
    decreases i,
{
    if i > 0 {
        lemma_len_bound_prefix(p, s1, s2, (i - 1) as nat);
    }
}

/// One round of the length bound: a polynomial of at most `b` coefficients,
/// quotiented by `s` points, folded by `k` and degree-corrected by `e`,
/// has at most `ceil((b - s) / k) + e` coefficients.
proof fn lemma_len_step(lf: nat, lq: nat, lg: nat, ln: nat, s: nat, k: int, b: int, e: nat)
    requires
        k >= 1,
        lf <= b,
        lq + s <= lf || lq == 0,
        lg <= (lq + k - 1) / k,
        ln <= lg + e,
    ensures
        ln <= folded_len_bound(b, s, k) + e,
{
    if lq == 0 {
        vstd::arithmetic::div_mod::lemma_basic_div(k - 1, k);
        if b >= s {
            vstd::arithmetic::div_mod::lemma_div_pos_is_pos(b - s + k - 1, k);
        }
    } else {
        vstd::arithmetic::div_mod::lemma_div_is_ordered(lq + k - 1, b - s + k - 1, k);
    }
}

/// The shape of an honest proof for `p`: one entry per round, `t_i`
/// queries of `k` openings each, and every opening authenticated against
/// the round's commitment.
#[verifier::opaque]
pub open spec fn honest_shape(proof: StirProof, p: StirParams) -> bool {
    &&& proof.round_commitments@.len() == p.num_rounds
    &&& proof.ood_replies@.len() == p.num_rounds
    &&& proof.shift_answers@.len() == p.num_rounds
    &&& proof.merkle_paths@.len() == p.num_rounds
    &&& proof.merkle_opened_leaves@.len() == p.num_rounds
    &&& proof.pow_nonces@.len() == 0
    &&& forall|i: int| 0 <= i < p.num_rounds ==> {
        &&& (#[trigger] proof.ood_replies@[i])@.len() <= p.ood_samples
        &&& proof.round_commitments@[i].tree_size == pow2(round_log_size(p, i as nat))
        &&& proof.shift_answers@[i]@.len() == p.repetition_schedule@[i]
        &&& proof.merkle_paths@[i]@.len() == p.repetition_schedule@[i]
        &&& proof.merkle_opened_leaves@[i]@.len() == p.repetition_schedule@[i]
    }
    &&& forall|i: int, q: int|
        0 <= i < p.num_rounds && 0 <= q < p.repetition_schedule@[i] ==> {
            &&& (#[trigger] proof.shift_answers@[i]@[q])@.len() == p.folding_factor
            &&& proof.merkle_paths@[i]@[q]@.len() == p.folding_factor
            &&& proof.merkle_opened_leaves@[i]@[q]@ == proof.shift_answers@[i]@[q]@
        }
    &&& forall|i: int, q: int, j: int|
        0 <= i < p.num_rounds && 0 <= q < p.repetition_schedule@[i] && 0 <= j < p.folding_factor ==> {
            let path = #[trigger] proof.merkle_paths@[i]@[q]@[j];
            let c = proof.round_commitments@[i];
            &&& path.leaf_index < c.tree_size
            &&& path.siblings@.len() == ceil_log2(c.tree_size as nat)
            &&& path_root(leaf_hash(proof.merkle_opened_leaves@[i]@[q]@[j]), path.leaf_index as nat, digest_seq(path.siblings@))
                == c.root.0@
        }
}

/// The positions in `L_i` of the fibre over folded position `q_idx`.
pub fn preimage_indices_in_l_i(q_idx: usize, n_i: usize, k: usize) -> (r: Vec<usize>)
    requires
        k >= 1,
        n_i % k == 0,
        q_idx < n_i / k,
    ensures
        r@ == preimages(q_idx as nat, n_i as nat, k as nat),
        forall|j: int| 0 <= j < k ==> (#[trigger] r@[j]) < n_i,
{
    let stride = n_i / k;
    let mut out: Vec<usize> = Vec::new();
    let mut j: usize = 0;
    proof {
        vstd::arithmetic::div_mod::lemma_fundamental_div_mod(n_i as int, k as int);
        assert(stride * k == n_i) by (nonlinear_arith)
            requires
                n_i == k * stride + 0,
        ;
    }
    while j < k
        invariant
            j <= k,
            stride == n_i / k,
            stride * k == n_i,
            q_idx < stride,
            out@ == preimages(q_idx as nat, n_i as nat, k as nat).subrange(0, j as int),
            forall|jj: int| 0 <= jj < j ==> (#[trigger] out@[jj]) < n_i,
        decreases k - j,
    {
        assert(q_idx + j * stride < n_i) by (nonlinear_arith)
            requires
                q_idx < stride,
                j < k,
                stride * k == n_i,
        ;
        out.push(q_idx + j * stride);
        j = j + 1;
        assert(out@ =~= preimages(q_idx as nat, n_i as nat, k as nat).subrange(0, j as int));
    }
    out
}

/// The prover's state.
pub struct StirProver {
    /// The protocol parameters.
    pub params: StirParams,
    /// The polynomial whose low degree is proved.
    pub initial_polynomial: UnivariatePoly,
    /// The domains `L_0, ..., L_M`.
    pub stir_domain: StirDomain,
}

/// The domains of `sd` are the chain of `p`.
pub open spec fn domains_match(sd: StirDomain, p: StirParams) -> bool {
    &&& sd.round_domains@.len() == p.num_rounds + 1
    &&& forall|i: int|
        0 <= i <= p.num_rounds ==> {
            let d = #[trigger] sd.round_domains@[i];
            &&& d.spec_log_size() == round_log_size(p, i as nat)
            &&& d.spec_size() == pow2(round_log_size(p, i as nat))
            &&& d.spec_offset().val() == round_offset(i as nat)
            &&& d.wf()
        }
}

/// Each domain of a matching chain is the round's domain `L_i`.
pub proof fn lemma_round_dom(sd: StirDomain, p: StirParams, i: nat)
    requires
        domains_match(sd, p),
        i <= p.num_rounds,
    ensures
        sd.round_domains@[i as int] == round_dom(p, i),
{
    let d = sd.round_domains@[i as int];
    crate::domain::lemma_domain_is_coset_domain(d);
}

impl StirProver {
    /// The prover is consistent: valid parameters, their domain chain, and
    /// an initial polynomial within the degree bound.
    pub open spec fn wf(self) -> bool {
        &&& prover_params_ok(self.params)
        &&& domains_match(self.stir_domain, self.params)
        &&& self.initial_polynomial@.len() <= self.params.initial_degree_bound
    }

    /// A prover for `polynomial` (of degree below `d_0`) under valid
    /// `params` whose domain chain fits; it is ready to prove when the
    /// parameters also meet `prover_params_ok`.
    pub fn new(params: StirParams, polynomial: UnivariatePoly) -> (r: StirProver)
        requires
            domains_fit(params),
            first_violation(params) is None,
            polynomial@.len() <= params.initial_degree_bound,
        ensures
            r.params == params,
            r.initial_polynomial == polynomial,
            domains_match(r.stir_domain, params),
            prover_params_ok(params) ==> r.wf(),
    {
        let stir_domain = StirDomain::new(&params);
        StirProver { params, initial_polynomial: polynomial, stir_domain }
    }

    /// Produce a STIR proof, driving the Fiat-Shamir transcript. The final
    /// polynomial keeps the degree recurrence `B_{i+1} = ceil((B_i - s_i) / k) + e_i`
    /// over the rounds' numbers `s_i` of OOD points.
    pub fn prove(&self, transcript: &mut Transcript) -> (proof: StirProof)
        requires
            self.wf(),
        ensures
            honest_shape(proof, self.params),
            proof.final_polynomial@.len() <= honest_len_bound(self.params, ood_counts(proof), self.params.num_rounds as nat),
            proof.round_commitments@[0].root.0@ == merkle_root(
                codeword(self.initial_polynomial@, self.stir_domain.round_domains@[0]),
            ),
            exists|polys: Seq<Seq<Fp>>, quots: Seq<Seq<Fp>>|
                #[trigger] honest_run(old(transcript)@, proof, self.params, self.initial_polynomial@, polys, quots),
            final(transcript)@ == round_start(old(transcript)@, proof, self.params, self.params.num_rounds as nat),
    {
        let ghost p = self.params;
        let ghost t0 = transcript@;
        let ghost mut roots_g: Seq<Seq<u8>> = Seq::empty();
        let ghost mut replies_g: Seq<Seq<Fp>> = Seq::empty();
        let ghost mut leaves_g: Seq<Seq<Vec<Fp>>> = Seq::empty();
        let ghost mut polys: Seq<Seq<Fp>> = seq![self.initial_polynomial@];
        let ghost mut quots: Seq<Seq<Fp>> = Seq::empty();
        let num_rounds = self.params.num_rounds as usize;
        let k = self.params.folding_factor as usize;
        let ghost a = tz32(k as nat);
        proof {
            crate::params::lemma_tz_of_pow2(k as nat);
            crate::params::lemma_pow2_log(k as nat);
            vstd::arithmetic::power2::lemma2_to64();
            if a < 2 {
                if a == 0 {
                    assert(k == 1);
                } else {
                    assert(k == 2);
                }
                assert(false);
            }
        }
        let mut round_commitments: Vec<StirCommitment> = Vec::new();
        let mut ood_replies: Vec<Vec<Fp>> = Vec::new();
        let mut shift_answers: Vec<Vec<Vec<Fp>>> = Vec::new();
        let mut merkle_paths: Vec<Vec<Vec<MerklePath>>> = Vec::new();
        let mut merkle_opened_leaves: Vec<Vec<Vec<Fp>>> = Vec::new();
        let mut current_poly = UnivariatePoly::from_coeffs_unstripped(copy_coeffs(self.initial_polynomial.coeffs()));
        proof {
            lemma_initial_fits(p);
            vstd::arithmetic::power::lemma_pow0(p.folding_factor as int);
            assert(round_degree(p, 0) == p.initial_degree_bound);
        }
        let mut i: usize = 0;
        while i < num_rounds
            invariant
                self.wf(),
                p == self.params,
                i <= num_rounds,
                num_rounds == p.num_rounds,
                k == p.folding_factor,
                a == tz32(k as nat),
                k == pow2(a),
                a >= 2,
                i < num_rounds ==> current_poly@.len() <= pow2(round_log_size(p, i as nat)),
                current_poly@.len() <= honest_len_bound(p, reply_counts(replies_g), i as nat),
                i == 0 ==> current_poly@ == self.initial_polynomial@,
                i > 0 ==> round_commitments@[0].root.0@ == merkle_root(
                    codeword(self.initial_polynomial@, self.stir_domain.round_domains@[0]),
                ),
                round_commitments@.len() == i,
                roots_g.len() == i,
                replies_g.len() == i,
                leaves_g.len() == i,
                forall|ii: int| 0 <= ii < i ==> #[trigger] roots_g[ii] == round_commitments@[ii].root.0@,
                forall|ii: int| 0 <= ii < i ==> #[trigger] replies_g[ii] == ood_replies@[ii]@,
                forall|ii: int| 0 <= ii < i ==> #[trigger] leaves_g[ii] == merkle_opened_leaves@[ii]@,
                transcript@ == round_start_from(t0, roots_g, replies_g, leaves_g, p, i as nat),
                polys.len() == i + 1,
                quots.len() == i,
                polys[0] == self.initial_polynomial@,
                polys[i as int] == current_poly@,
                forall|ii: nat|
                    ii < i ==> #[trigger] honest_round_of(
                        round_start_from(t0, roots_g, replies_g, leaves_g, p, ii),
                        round_commitments@[ii as int],
                        ood_replies@[ii as int]@,
                        shift_answers@[ii as int]@,
                        merkle_paths@[ii as int]@,
                        p,
                        ii,
                        polys[ii as int],
                        quots[ii as int],
                        polys[ii + 1 as int],
                    ),
                ood_replies@.len() == i,
                shift_answers@.len() == i,
                merkle_paths@.len() == i,
                merkle_opened_leaves@.len() == i,
                forall|ii: int| 0 <= ii < i ==> (#[trigger] ood_replies@[ii])@.len() <= p.ood_samples,
                forall|ii: int| 0 <= ii < i ==> (#[trigger] round_commitments@[ii]).tree_size == pow2(round_log_size(p, ii as nat)),
                forall|ii: int| 0 <= ii < i ==> (#[trigger] shift_answers@[ii])@.len() == p.repetition_schedule@[ii],
                forall|ii: int| 0 <= ii < i ==> (#[trigger] merkle_paths@[ii])@.len() == p.repetition_schedule@[ii],
                forall|ii: int| 0 <= ii < i ==> (#[trigger] merkle_opened_leaves@[ii])@.len() == p.repetition_schedule@[ii],
                forall|ii: int, q: int|
                    0 <= ii < i && 0 <= q < p.repetition_schedule@[ii] ==> (#[trigger] shift_answers@[ii]@[q])@.len() == k,
                forall|ii: int, q: int|
                    0 <= ii < i && 0 <= q < p.repetition_schedule@[ii] ==> (#[trigger] merkle_paths@[ii]@[q])@.len() == k,
                forall|ii: int, q: int|
                    0 <= ii < i && 0 <= q < p.repetition_schedule@[ii] ==> (#[trigger] merkle_opened_leaves@[ii]@[q])@
                        == shift_answers@[ii]@[q]@,
                forall|ii: int, q: int, j: int|
                    0 <= ii < i && 0 <= q < p.repetition_schedule@[ii] && 0 <= j < k ==> {
                        let path = #[trigger] merkle_paths@[ii]@[q]@[j];
                        let c = round_commitments@[ii];
                        &&& path.leaf_index < c.tree_size
                        &&& path.siblings@.len() == ceil_log2(c.tree_size as nat)
                        &&& path_root(
                            leaf_hash(merkle_opened_leaves@[ii]@[q]@[j]),
                            path.leaf_index as nat,
                            digest_seq(path.siblings@),
                        ) == c.root.0@
                    },
            decreases num_rounds - i,
        {
            proof {
                lemma_round_arith(p, i as nat);
                assert(round_log_size(p, i as nat) >= a);
            }
            let ghost ts = transcript@;
            proof {
                lemma_round_dom(self.stir_domain, p, i as nat);
                lemma_round_dom(self.stir_domain, p, (i + 1) as nat);
            }
            let domain_i = self.stir_domain.round_domain(i);
            let n_i = domain_i.size();
            proof {
                assert(domain_i.spec_size() == pow2(round_log_size(p, i as nat)));
                lemma_pow_mono_k(k as nat, (i + 1) as nat, p.num_rounds as nat);
                lemma_pow_mono_k(k as nat, i as nat, p.num_rounds as nat);
            }
            let d_i = self.params.round_degree_bound(i as u32);
            let d_ip1 = self.params.round_degree_bound((i + 1) as u32);
            // Evaluate the current polynomial on L_i.
            let coeffs = current_poly.coeffs();
            let mut padded_coeffs: Vec<Fp> = Vec::new();
            let mut t: usize = 0;
            while t < n_i
                invariant
                    t <= n_i,
                    padded_coeffs@.len() == t,
                    coeffs@ == current_poly@,
                    forall|tt: int| 0 <= tt < t ==> (#[trigger] padded_coeffs@[tt]).val() == coef(coeffs@, tt),
                decreases n_i - t,
            {
                if t < coeffs.len() {
                    padded_coeffs.push(coeffs[t]);
                } else {
                    let z = Fp::zero();
                    padded_coeffs.push(z);
                }
                t = t + 1;
            }
            let evals_i: Vec<Fp> = fft_on_domain(padded_coeffs.as_slice(), domain_i);
            proof {
                let kz = (n_i - current_poly@.len()) as nat;
                let zp = zero_pad(current_poly@, kz);
                crate::field::lemma_from_val(0);
                assert forall|tt: int| 0 <= tt < n_i implies #[trigger] padded_coeffs@[tt] == zp[tt] by {
                    crate::field::lemma_val_eq(padded_coeffs@[tt], zp[tt]);
                }
                assert(padded_coeffs@ =~= zp);
                assert forall|jj: int| 0 <= jj < n_i implies #[trigger] evals_i@[jj] == codeword(current_poly@, *domain_i)[jj] by {
                    crate::encode::lemma_poly_eval_zero_pad(current_poly@, kz, domain_i.point(jj));
                }
                assert(evals_i@ =~= codeword(current_poly@, *domain_i));
            }
            let (commitment_i, tree_i) = StirCommitment::commit(evals_i.as_slice());
            transcript.absorb_root(&commitment_i.root);
            let next_domain = self.stir_domain.round_domain(i + 1);
            let ood_points_i: Vec<Fp> = sample_ood_points(transcript, self.params.ood_samples, next_domain);
            proof {
                assert(ood_points_i@ == ood_step_of(ts, commitment_i.root.0@, p, i as nat).0);
            }
            let ghost after_ood = transcript@;
            // OOD replies.
            let mut ood_replies_i: Vec<Fp> = Vec::new();
            let mut o: usize = 0;
            while o < ood_points_i.len()
                invariant
                    o <= ood_points_i@.len(),
                    ood_replies_i@.len() == o,
                    forall|jj: int| 0 <= jj < o ==> (#[trigger] ood_replies_i@[jj]).val() == fmod(
                        poly_eval(current_poly@, ood_points_i@[jj].val() as int),
                    ),
                decreases ood_points_i@.len() - o,
            {
                ood_replies_i.push(evaluate_at(&current_poly, ood_points_i[o]));
                o = o + 1;
            }
            let mut o: usize = 0;
            while o < ood_replies_i.len()
                invariant
                    o <= ood_replies_i@.len(),
                    transcript@ == after_ood + field_frames(ood_replies_i@.subrange(0, o as int)),
                decreases ood_replies_i@.len() - o,
            {
                transcript.absorb_field(ood_replies_i[o]);
                proof {
                    let pre = ood_replies_i@.subrange(0, o as int);
                    let post = ood_replies_i@.subrange(0, o + 1);
                    assert(post.drop_last() =~= pre);
                    assert(post.last() == ood_replies_i@[o as int]);
                    assert((after_ood + field_frames(pre)) + frame(le_bytes(ood_replies_i@[o as int].val(), 8))
                        =~= after_ood + (field_frames(pre) + frame(le_bytes(ood_replies_i@[o as int].val(), 8))));
                }
                o = o + 1;
            }
            proof {
                assert(ood_replies_i@.subrange(0, ood_replies_i@.len() as int) =~= ood_replies_i@);
                assert(transcript@ == replies_absorbed_of(ts, commitment_i.root.0@, ood_replies_i@, p, i as nat));
            }
            let r_comb_i: Fp = transcript.squeeze_field();
            let alpha_i: Fp = transcript.squeeze_field();
            let mut ood_pairs: Vec<(Fp, Fp)> = Vec::new();
            let mut o: usize = 0;
            while o < ood_points_i.len()
                invariant
                    o <= ood_points_i@.len(),
                    ood_points_i@.len() == ood_replies_i@.len(),
                    ood_pairs@.len() == o,
                    forall|jj: int| 0 <= jj < o ==> (#[trigger] ood_pairs@[jj]).0 == ood_points_i@[jj],
                    forall|jj: int| 0 <= jj < o ==> (#[trigger] ood_pairs@[jj]).1 == ood_replies_i@[jj],
                    forall|jj: int| 0 <= jj < ood_replies_i@.len() ==> (#[trigger] ood_replies_i@[jj]).val() == fmod(
                        poly_eval(current_poly@, ood_points_i@[jj].val() as int),
                    ),
                decreases ood_points_i@.len() - o,
            {
                ood_pairs.push((ood_points_i[o], ood_replies_i[o]));
                o = o + 1;
            }
            proof {
                assert(ood_pairs@ =~= zip_pairs(ood_points_i@, ood_replies_i@));
            }
            // The next polynomial: quotient, fold, degree correction.
            let q_i: UnivariatePoly = if ood_pairs.len() == 0 {
                UnivariatePoly::from_coeffs_unstripped(copy_coeffs(current_poly.coeffs()))
            } else {
                proof {
                    assert forall|x: int, y: int| 0 <= x < y < ood_pairs@.len() implies ood_pairs@[x].0
                        != ood_pairs@[y].0 by {
                        assert(ood_pairs@[x].0 == ood_points_i@[x]);
                        assert(ood_pairs@[y].0 == ood_points_i@[y]);
                    }
                    assert forall|jj: int| 0 <= jj < ood_pairs@.len() implies fmod(
                        poly_eval(current_poly@, (#[trigger] ood_pairs@[jj]).0.val() as int),
                    ) == ood_pairs@[jj].1.val() by {
                        assert(ood_replies_i@[jj].val() == fmod(poly_eval(current_poly@, ood_points_i@[jj].val() as int)));
                    }
                }
                poly_quotient(&current_poly, ood_pairs.as_slice())
            };
            proof {
                assert(q_i@.len() <= current_poly@.len());
            }
            coeffs_canonical(q_i.coeffs());
            let g_i: UnivariatePoly = poly_fold(&q_i, self.params.folding_factor, alpha_i);
            proof {
                if q_i@.len() == 0 {
                    assert(fold_coeffs(q_i@, k as nat, alpha_i.val() as int).len() == 0) by {
                        vstd::arithmetic::div_mod::lemma_basic_div((k - 1) as int, k as int);
                    }
                    assert(strip(fold_coeffs(q_i@, k as nat, alpha_i.val() as int)) =~= g_i@);
                }
                assert(g_i@ == strip(fold_coeffs(q_i@, k as nat, alpha_i.val() as int)));
            }
            let s = ood_points_i.len();
            let g_deg_bound = if d_i >= s {
                (d_i - s + k - 1) / k
            } else {
                0
            };
            let e_i: usize = if d_ip1 >= g_deg_bound {
                d_ip1 - g_deg_bound
            } else {
                0
            };
            proof {
                let n = pow2(round_log_size(p, i as nat));
                assert(q_i@.len() <= n);
                vstd::arithmetic::div_mod::lemma_div_is_ordered(
                    (q_i@.len() + k - 1) as int,
                    (n + k - 1) as int,
                    k as int,
                );
                assert((n + k - 1) as int / (k as int) == (n as int) / (k as int)) by {
                    vstd::arithmetic::div_mod::lemma_fundamental_div_mod(n as int, k as int);
                    vstd::arithmetic::div_mod::lemma_fundamental_div_mod_converse(
                        (n + k - 1) as int,
                        k as int,
                        (n as int) / (k as int),
                        (k - 1) as int,
                    );
                }
                assert(g_i@.len() <= (n as int) / (k as int));
                assert(e_i <= d_ip1);
            }
            let next_poly = poly_deg_cor(&g_i, e_i, r_comb_i);
            proof {
                if i + 1 < num_rounds {
                    assert(next_poly@.len() <= pow2(round_log_size(p, (i + 1) as nat)));
                }
                assert(e_i == correction_degree(p, i as nat, s as nat));
                lemma_len_step(
                    current_poly@.len(),
                    q_i@.len(),
                    g_i@.len(),
                    next_poly@.len(),
                    s as nat,
                    k as int,
                    honest_len_bound(p, reply_counts(replies_g), i as nat),
                    e_i as nat,
                );
            }
            // Shift queries and their fibre openings.
            let t_i = self.params.repetition_schedule[i];
            let stride = n_i / k;
            assert(stride <= 0x4000_0000) by {
                vstd::arithmetic::div_mod::lemma_div_is_ordered_by_denominator(n_i as int, 4, k as int);
            }
            let shift_indices_i: Vec<u32> = transcript.sample_shift_indices(t_i, stride as u32);
            let ghost pos_state = transcript@;
            proof {
                assert(tree_i.layers@[0]@.len() == pow2((tree_i.height() - 0) as nat));
                assert(tree_i.leaves_hashed@.len() == n_i);
                assert(shift_indices_i@ == shift_positions_of(ts, commitment_i.root.0@, ood_replies_i@, p, i as nat));
                assert(e_i == correction_degree(p, i as nat, s as nat));
            }
            let mut shift_answers_i: Vec<Vec<Fp>> = Vec::new();
            let mut merkle_paths_i: Vec<Vec<MerklePath>> = Vec::new();
            let mut merkle_opened_leaves_i: Vec<Vec<Fp>> = Vec::new();
            let mut q: usize = 0;
            while q < shift_indices_i.len()
                invariant
                    q <= shift_indices_i@.len(),
                    shift_indices_i@.len() == t_i,
                    k == p.folding_factor,
                    k >= 4,
                    n_i == pow2(round_log_size(p, i as nat)),
                    n_i % k == 0,
                    stride == n_i / k,
                    stride >= 1,
                    forall|qq: int| 0 <= qq < t_i ==> (#[trigger] shift_indices_i@[qq]) < stride as u32,
                    tree_i.wf(),
                    tree_i.height() == ceil_log2(n_i as nat),
                    tree_i.leaves@ == pad_leaves(evals_i@, next_pow2(n_i as nat)),
                    tree_i.leaves_hashed@.len() == n_i,
                    evals_i@.len() == n_i,
                    next_pow2(n_i as nat) == n_i,
                    commitment_i.root.0@ == merkle_root(evals_i@),
                    commitment_i.tree_size == n_i,
                    evals_i@ == codeword(current_poly@, *domain_i),
                    transcript@ == pos_state + queries_frames(merkle_opened_leaves_i@, q as nat),
                    forall|qq: int, j: int|
                        0 <= qq < q && 0 <= j < k ==> (#[trigger] merkle_paths_i@[qq]@[j]).leaf_index == preimages(
                            shift_indices_i@[qq] as nat,
                            n_i as nat,
                            k as nat,
                        )[j],
                    forall|qq: int, j: int|
                        0 <= qq < q && 0 <= j < k ==> #[trigger] shift_answers_i@[qq]@[j] == evals_i@[preimages(
                            shift_indices_i@[qq] as nat,
                            n_i as nat,
                            k as nat,
                        )[j] as int],
                    shift_answers_i@.len() == q,
                    merkle_paths_i@.len() == q,
                    merkle_opened_leaves_i@.len() == q,
                    forall|qq: int| 0 <= qq < q ==> (#[trigger] shift_answers_i@[qq])@.len() == k,
                    forall|qq: int| 0 <= qq < q ==> (#[trigger] merkle_paths_i@[qq])@.len() == k,
                    forall|qq: int| 0 <= qq < q ==> (#[trigger] merkle_opened_leaves_i@[qq])@ == shift_answers_i@[qq]@,
                    forall|qq: int, j: int|
                        0 <= qq < q && 0 <= j < k ==> {
                            let path = #[trigger] merkle_paths_i@[qq]@[j];
                            &&& path.leaf_index < n_i
                            &&& path.siblings@.len() == ceil_log2(n_i as nat)
                            &&& path_root(
                                leaf_hash(merkle_opened_leaves_i@[qq]@[j]),
                                path.leaf_index as nat,
                                digest_seq(path.siblings@),
                            ) == commitment_i.root.0@
                        },
                decreases shift_indices_i@.len() - q,
            {
                let q_idx = shift_indices_i[q] as usize;
                let preimage_idxs = preimage_indices_in_l_i(q_idx, n_i, k);
                let mut answers_q: Vec<Fp> = Vec::new();
                let mut paths_q: Vec<MerklePath> = Vec::new();
                let mut leaves_q: Vec<Fp> = Vec::new();
                let ghost before_q = transcript@;
                let mut j: usize = 0;
                while j < k
                    invariant
                        j <= k,
                        preimage_idxs@.len() == k,
                        transcript@ == before_q + field_frames(leaves_q@),
                        forall|jj: int| 0 <= jj < j ==> (#[trigger] paths_q@[jj]).leaf_index == preimage_idxs@[jj],
                        forall|jj: int| 0 <= jj < j ==> #[trigger] answers_q@[jj] == evals_i@[preimage_idxs@[jj] as int],
                        forall|jj: int| 0 <= jj < k ==> (#[trigger] preimage_idxs@[jj]) < n_i,
                        tree_i.wf(),
                        tree_i.height() == ceil_log2(n_i as nat),
                        tree_i.leaves@ == pad_leaves(evals_i@, next_pow2(n_i as nat)),
                        tree_i.leaves_hashed@.len() == n_i,
                        evals_i@.len() == n_i,
                        next_pow2(n_i as nat) == n_i,
                        commitment_i.root.0@ == merkle_root(evals_i@),
                        answers_q@.len() == j,
                        paths_q@.len() == j,
                        leaves_q@ == answers_q@,
                        forall|jj: int| 0 <= jj < j ==> {
                            let path = #[trigger] paths_q@[jj];
                            &&& path.leaf_index < n_i
                            &&& path.siblings@.len() == ceil_log2(n_i as nat)
                            &&& path_root(leaf_hash(leaves_q@[jj]), path.leaf_index as nat, digest_seq(path.siblings@))
                                == commitment_i.root.0@
                        },
                    decreases k - j,
                {
                    let p_idx = preimage_idxs[j];
                    let (leaf, path) = tree_i.open(p_idx);
                    proof {
                        assert(pad_leaves(evals_i@, n_i as nat) =~= evals_i@);
                        lemma_commit_open_verify(evals_i@, p_idx as nat);
                    }
                    let ghost old_leaves = leaves_q@;
                    answers_q.push(leaf);
                    paths_q.push(path);
                    leaves_q.push(leaf);
                    transcript.absorb_field(leaf);
                    proof {
                        assert(leaves_q@.drop_last() =~= old_leaves);
                        assert(leaf == evals_i@[p_idx as int]);
                        assert((before_q + field_frames(old_leaves)) + frame(le_bytes(leaf.val(), 8)) =~= before_q + (
                        field_frames(old_leaves) + frame(le_bytes(leaf.val(), 8))));
                    }
                    j = j + 1;
                }
                let ghost old_opened = merkle_opened_leaves_i@;
                shift_answers_i.push(answers_q);
                merkle_paths_i.push(paths_q);
                merkle_opened_leaves_i.push(leaves_q);
                proof {
                    lemma_queries_frames_push(old_opened, leaves_q, q as nat);
                    assert(merkle_opened_leaves_i@ == old_opened.push(leaves_q));
                }
                q = q + 1;
            }
            assert(ood_replies_i@.len() <= p.ood_samples);
            assert(commitment_i.tree_size == pow2(round_log_size(p, i as nat)));
            assert(shift_answers_i@.len() == p.repetition_schedule@[i as int]);
            assert(merkle_paths_i@.len() == p.repetition_schedule@[i as int]);
            assert(merkle_opened_leaves_i@.len() == p.repetition_schedule@[i as int]);
            let ghost old_commitments = round_commitments@;
            round_commitments.push(commitment_i);
            ood_replies.push(ood_replies_i);
            shift_answers.push(shift_answers_i);
            merkle_paths.push(merkle_paths_i);
            merkle_opened_leaves.push(merkle_opened_leaves_i);
            proof {
                assert(ood_replies@[i as int] == ood_replies_i);
                assert(round_commitments@[i as int] == commitment_i);
                if i == 0 {
                    assert(round_commitments@[0] == commitment_i);
                } else {
                    assert(round_commitments@[0] == old_commitments[0]);
                }
                assert(shift_answers@[i as int] == shift_answers_i);
                assert(merkle_paths@[i as int] == merkle_paths_i);
                assert(merkle_opened_leaves@[i as int] == merkle_opened_leaves_i);
            }
            let ghost old_roots = roots_g;
            let ghost old_replies = replies_g;
            let ghost old_leaves_g = leaves_g;
            let ghost old_polys = polys;
            let ghost old_quots = quots;
            proof {
                // This round is honest.
                assert(honest_round_of(
                    ts,
                    commitment_i,
                    ood_replies_i@,
                    shift_answers_i@,
                    merkle_paths_i@,
                    p,
                    i as nat,
                    current_poly@,
                    q_i@,
                    next_poly@,
                ));
                roots_g = roots_g.push(commitment_i.root.0@);
                replies_g = replies_g.push(ood_replies_i@);
                lemma_len_bound_prefix(p, reply_counts(replies_g), reply_counts(old_replies), i as nat);
                assert(reply_counts(replies_g)[i as int] == s as nat);
                assert(next_poly@.len() <= honest_len_bound(p, reply_counts(replies_g), (i + 1) as nat));
                leaves_g = leaves_g.push(merkle_opened_leaves_i@);
                polys = polys.push(next_poly@);
                quots = quots.push(q_i@);
                assert forall|ii: nat| ii <= i implies #[trigger] round_start_from(t0, roots_g, replies_g, leaves_g, p, ii)
                    == round_start_from(t0, old_roots, old_replies, old_leaves_g, p, ii) by {
                    lemma_round_start_prefix(t0, roots_g, replies_g, leaves_g, old_roots, old_replies, old_leaves_g, p, ii);
                }
                assert(round_start_from(t0, roots_g, replies_g, leaves_g, p, i as nat) == ts);
                assert(roots_g[i as int] == commitment_i.root.0@);
                assert(replies_g[i as int] == ood_replies_i@);
                assert(leaves_g[i as int] == merkle_opened_leaves_i@);
                assert(pos_state == after_squeeze_indices(
                    randomness_drawn_of(ts, commitment_i.root.0@, ood_replies_i@, p, i as nat),
                    t_i as nat,
                    round_stride(p, i as nat),
                ));
                assert(transcript@ == pos_state + queries_frames(merkle_opened_leaves_i@, t_i as nat));
                assert(transcript@ == round_end_of(ts, commitment_i.root.0@, ood_replies_i@, merkle_opened_leaves_i@, p, i as nat));
                assert(transcript@ == round_start_from(t0, roots_g, replies_g, leaves_g, p, (i + 1) as nat));
            }
            current_poly = next_poly;
            i = i + 1;
        }
        let proof = StirProof {
            round_commitments,
            ood_replies,
            shift_answers,
            merkle_paths,
            merkle_opened_leaves,
            final_polynomial: current_poly,
            pow_nonces: Vec::new(),
        };
        proof {
            reveal(honest_shape);
            assert(proof_roots(proof) =~= roots_g);
            assert(proof_replies(proof) =~= replies_g);
            assert(ood_counts(proof) == reply_counts(replies_g));
            assert(proof_leaves(proof) =~= leaves_g);
            assert(honest_run(t0, proof, p, self.initial_polynomial@, polys, quots));
        }
        proof
    }
}

/// `k^j <= k^m` for `j <= m` and `k >= 1`.
pub proof fn lemma_pow_mono_k(k: nat, j: nat, m: nat)
    requires
        k >= 1,
        j <= m,
    ensures
        pow(k as int, j) <= pow(k as int, m),
{
    if j < m {
        vstd::arithmetic::power::lemma_pow_increases(k, j, m);
    }
}

/// A power of two that fits a word is at most `usize::MAX / 2 + 1`.
proof fn lemma_pow2_half_bound(l: nat)
    requires
        l <= 32,
        pow2(l) <= usize::MAX,
    ensures
        pow2(l) <= usize::MAX / 2 + 1,
{
    vstd::arithmetic::power2::lemma2_to64();
    vstd::arithmetic::power2::lemma2_to64_rest();
    assert(usize::BITS == 32 || usize::BITS == 64);
    if l < 31 {
        vstd::arithmetic::power2::lemma_pow2_strictly_increases(l, 31);
    }
}

/// The last domain has at most `2^31` points.
pub proof fn lemma_final_domain_small(p: StirParams)
    requires
        prover_params_ok(p),
    ensures
        1 <= pow2(round_log_size(p, p.num_rounds as nat)) <= 0x8000_0000,
{
    let k = p.folding_factor as nat;
    let a = tz32(k);
    crate::params::lemma_tz_of_pow2(k);
    crate::params::lemma_pow2_log(k);
    vstd::arithmetic::power2::lemma2_to64();
    assert(a >= 2) by {
        if a < 2 {
            assert(a == 0 || a == 1);
        }
    }
    let l = round_log_size(p, p.num_rounds as nat);
    assert(p.num_rounds >= 1);
    assert(p.num_rounds * (a - 1) >= 1) by (nonlinear_arith)
        requires
            p.num_rounds >= 1,
            a >= 2,
    ;
    assert(l <= 31);
    vstd::arithmetic::power2::lemma_pow2_pos(l);
    if l < 31 {
        vstd::arithmetic::power2::lemma_pow2_strictly_increases(l, 31);
    }
}

/// The initial polynomial fits `L_0`.
proof fn lemma_initial_fits(p: StirParams)
    requires
        prover_params_ok(p),
    ensures
        p.initial_degree_bound <= pow2(round_log_size(p, 0)),
{
    assert(round_log_size(p, 0) == p.log_initial_domain_size);
}

/// The size arithmetic of round `i < M`: with `k = 2^a` and
/// `n_i = 2^log|L_i|`, `k` divides `n_i`, `n_{i+1} = 2 n_i / k`, and the
/// next degree bound `d_0 / k^(i+1)` is at most `n_i / k`.
pub proof fn lemma_round_arith(p: StirParams, i: nat)
    requires
        prover_params_ok(p),
        i < p.num_rounds,
    ensures
        ({
            let k = p.folding_factor as nat;
            let n = pow2(round_log_size(p, i));
            let n1 = pow2(round_log_size(p, i + 1));
            &&& n % k == 0
            &&& n / k >= 1
            &&& 2 * (n / k) == n1
            &&& (p.initial_degree_bound as int) / pow(k as int, i + 1) <= n / k
            &&& n <= 0x1_0000_0000
            &&& n <= usize::MAX
            &&& n <= usize::MAX / 2 + 1
            &&& n >= 1
            &&& next_pow2(n) == n
            &&& ceil_log2(n) == round_log_size(p, i)
            &&& k <= n
            &&& n <= pow2(p.log_initial_domain_size as nat)
            &&& (p.initial_degree_bound as int) / pow(k as int, i) <= p.initial_degree_bound
        }),
{
    let k = p.folding_factor as nat;
    let a = tz32(k);
    let l0 = p.log_initial_domain_size as nat;
    let li = round_log_size(p, i);
    let li1 = round_log_size(p, i + 1);
    crate::params::lemma_tz_of_pow2(k);
    crate::params::lemma_pow2_log(k);
    vstd::arithmetic::power2::lemma2_to64();
    assert(k == pow2(a));
    assert(a >= 2) by {
        if a < 2 {
            assert(a == 0 || a == 1);
        }
    }
    assert(li >= a);
    assert(i * (a - 1) <= p.num_rounds * (a - 1)) by (nonlinear_arith)
        requires
            i < p.num_rounds,
            a >= 2,
    ;
    assert(li == l0 - i * (a - 1));
    assert((i + 1) * (a - 1) <= p.num_rounds * (a - 1)) by (nonlinear_arith)
        requires
            i + 1 <= p.num_rounds,
            a >= 2,
    ;
    assert(li1 == l0 - (i + 1) * (a - 1));
    assert((i + 1) * (a - 1) == i * (a - 1) + (a - 1)) by (nonlinear_arith);
    assert(li1 == li - a + 1);
    let n = pow2(li);
    // n = k * 2^(li - a)
    vstd::arithmetic::power2::lemma_pow2_adds(a, (li - a) as nat);
    assert(n == k * pow2((li - a) as nat));
    vstd::arithmetic::power2::lemma_pow2_pos((li - a) as nat);
    vstd::arithmetic::div_mod::lemma_div_multiples_vanish(pow2((li - a) as nat) as int, k as int);
    vstd::arithmetic::div_mod::lemma_mod_multiples_basic(pow2((li - a) as nat) as int, k as int);
    assert(n / k == pow2((li - a) as nat));
    assert(n == pow2((li - a) as nat) * k) by (nonlinear_arith)
        requires
            n == k * pow2((li - a) as nat),
    ;
    assert(n % k == 0);
    vstd::arithmetic::power2::lemma_pow2_adds((li - a) as nat, 1);
    assert(((li - a) as nat + 1) as nat == li1);
    // sizes
    assert(l0 <= 32);
    if li < l0 {
        vstd::arithmetic::power2::lemma_pow2_strictly_increases(li, l0);
    }
    if l0 < 32 {
        vstd::arithmetic::power2::lemma_pow2_strictly_increases(l0, 32);
    }
    lemma_pow2_half_bound(l0);
    lemma_ceil_log2_char(n, li);
    if li > 0 {
        vstd::arithmetic::power2::lemma_pow2_strictly_increases((li - 1) as nat, li);
    }
    // the degree bound
    let d0 = p.initial_degree_bound as int;
    assert(k <= n) by (nonlinear_arith)
        requires
            n == k * pow2((li - a) as nat),
            pow2((li - a) as nat) >= 1,
    ;
    vstd::arithmetic::power::lemma_pow_positive(k as int, i);
    vstd::arithmetic::div_mod::lemma_div_is_ordered_by_denominator(d0, 1, pow(k as int, i));
    let e = a * (i + 1);
    vstd::arithmetic::power::lemma_pow_multiplies(2, a, i + 1);
    vstd::arithmetic::power2::lemma_pow2(a);
    vstd::arithmetic::power2::lemma_pow2(e);
    assert(pow(k as int, i + 1) == pow2(e));
    vstd::arithmetic::power2::lemma_pow2_pos(e);
    if l0 == 0 {
        assert(d0 == 0);
        vstd::arithmetic::div_mod::lemma_basic_div(0, pow2(e) as int);
    } else {
        vstd::arithmetic::power2::lemma_pow2_adds((l0 - 1) as nat, 1);
        assert(d0 <= pow2((l0 - 1) as nat));
        vstd::arithmetic::div_mod::lemma_div_is_ordered(d0, pow2((l0 - 1) as nat) as int, pow2(e) as int);
        if e <= l0 - 1 {
            vstd::arithmetic::power2::lemma_pow2_adds((l0 - 1 - e) as nat, e);
            vstd::arithmetic::div_mod::lemma_div_multiples_vanish(pow2((l0 - 1 - e) as nat) as int, pow2(e) as int);
            assert(pow2((l0 - 1 - e) as nat) * pow2(e) == pow2(e) * pow2((l0 - 1 - e) as nat)) by (nonlinear_arith);
            assert(l0 - 1 - e <= li - a) by (nonlinear_arith)
                requires
                    li == l0 - i * (a - 1),
                    e == a * (i + 1),
            ;
            if ((l0 - 1 - e) as nat) < ((li - a) as nat) {
                vstd::arithmetic::power2::lemma_pow2_strictly_increases((l0 - 1 - e) as nat, (li - a) as nat);
            }
        } else {
            vstd::arithmetic::power2::lemma_pow2_strictly_increases((l0 - 1) as nat, e);
            vstd::arithmetic::div_mod::lemma_basic_div(pow2((l0 - 1) as nat) as int, pow2(e) as int);
        }
    }
}

} // verus!
