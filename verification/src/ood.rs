//! Out-of-domain sampling: field points drawn from the transcript that
//! avoid a forbidden domain and each other, evaluation at them, and the
//! verifier's interpolant through OOD and shift answers.
use crate::domain::EvaluationDomain;
use crate::field::{fmod, lemma_from_val, lemma_val_eq, Fp, MODULUS};
use crate::interpolate::{distinct_xs, lagrange_interpolate, lagrange_value};
use crate::polynomial::{is_stripped, poly_eval, UnivariatePoly};
use crate::transcript::{after_squeeze_field, squeeze_field_value, Transcript};
use std::collections::HashSet;
use vstd::prelude::*;

verus! {

/// The number of squeezes `sample_ood_points` attempts at most.
pub const OOD_ATTEMPTS: u64 = 0xFFFF_FFFF_FFFF_FFFF;

/// `v` is one of the points of the domain.
pub open spec fn in_domain(d: EvaluationDomain, v: int) -> bool {
    exists|i: int| 0 <= i < d.spec_size() && d.point(i) == v
}

/// Rejection sampling of OOD points: squeeze field elements from state
/// `t`, skipping those in `d` or already chosen, until `count` are chosen
/// or `fuel` squeezes are spent. Returns the points and the final state.
pub open spec fn ood_draw(t: Seq<u8>, count: nat, d: EvaluationDomain, acc: Seq<Fp>, fuel: nat) -> (Seq<Fp>, Seq<u8>)
    decreases fuel,
{
    if acc.len() >= count || fuel == 0 {
        (acc, t)
    } else {
        let v = squeeze_field_value(t);
        let t2 = after_squeeze_field(t);
        if in_domain(d, v as int) || acc.contains(Fp::from_val(v)) {
            ood_draw(t2, count, d, acc, (fuel - 1) as nat)
        } else {
            ood_draw(t2, count, d, acc.push(Fp::from_val(v)), (fuel - 1) as nat)
        }
    }
}

/// The set of the values of the points of `d`.
fn domain_point_set(d: &EvaluationDomain) -> (r: HashSet<u64>)
    ensures
        forall|v: u64| #[trigger] r@.contains(v) <==> in_domain(*d, v as int),
{
    broadcast use vstd::std_specs::hash::group_hash_axioms;

    let n = d.size();
    let mut set: HashSet<u64> = HashSet::new();
    let mut i: usize = 0;
    while i < n
        invariant
            i <= n,
            n == d.spec_size(),
            forall|v: u64| #[trigger] set@.contains(v) <==> exists|ii: int| 0 <= ii < i && d.point(ii) == v,
        decreases n - i,
    {
        let x = d.element(i).as_u64();
        set.insert(x);
        proof {
            assert forall|v: u64| #[trigger] set@.contains(v) <==> exists|ii: int| 0 <= ii < i + 1 && d.point(ii) == v by {
                if v == x {
                    assert(d.point(i as int) == v);
                }
            }
        }
        i = i + 1;
    }
    set
}

/// Draw `count` distinct OOD points outside `forbidden_domain` from the transcript.
pub fn sample_ood_points(transcript: &mut Transcript, count: u32, forbidden_domain: &EvaluationDomain) -> (r: Vec<Fp>)
    ensures
        (r@, final(transcript)@) == ood_draw(old(transcript)@, count as nat, *forbidden_domain, Seq::empty(), OOD_ATTEMPTS as nat),
        r@.len() <= count,
        forall|i: int| 0 <= i < r@.len() ==> !in_domain(*forbidden_domain, (#[trigger] r@[i]).val() as int),
        forall|i: int, j: int| 0 <= i < j < r@.len() ==> r@[i] != r@[j],
{
    broadcast use vstd::std_specs::hash::group_hash_axioms;

    let forbidden = domain_point_set(forbidden_domain);
    let mut out: Vec<Fp> = Vec::new();
    let mut chosen: HashSet<u64> = HashSet::new();
    let mut attempts: u64 = 0;
    let ghost target = ood_draw(transcript@, count as nat, *forbidden_domain, Seq::empty(), OOD_ATTEMPTS as nat);
    while out.len() < count as usize && attempts < OOD_ATTEMPTS
        invariant
            attempts <= OOD_ATTEMPTS,
            out@.len() <= count,
            ood_draw(transcript@, count as nat, *forbidden_domain, out@, (OOD_ATTEMPTS - attempts) as nat) == target,
            forall|v: u64| #[trigger] forbidden@.contains(v) <==> in_domain(*forbidden_domain, v as int),
            forall|v: u64| #[trigger] chosen@.contains(v) <==> exists|jj: int| 0 <= jj < out@.len() && out@[jj].val() == v,
            forall|i: int| 0 <= i < out@.len() ==> !in_domain(*forbidden_domain, (#[trigger] out@[i]).val() as int),
            forall|i: int, j: int| 0 <= i < j < out@.len() ==> out@[i] != out@[j],
        decreases OOD_ATTEMPTS - attempts,
    {
        let ghost t0 = transcript@;
        let candidate = transcript.squeeze_field();
        let key = candidate.as_u64();
        proof {
            use_type_invariant(&candidate);
            crate::field::lemma_canonical(candidate);
            lemma_from_val(candidate.val());
            lemma_val_eq(candidate, Fp::from_val(squeeze_field_value(t0)));
            assert(out@.contains(candidate) <==> chosen@.contains(key)) by {
                if chosen@.contains(key) {
                    let jj = choose|jj: int| 0 <= jj < out@.len() && out@[jj].val() == key;
                    lemma_val_eq(out@[jj], candidate);
                }
                if out@.contains(candidate) {
                    let jj = choose|jj: int| 0 <= jj < out@.len() && out@[jj] == candidate;
                    assert(out@[jj].val() == key);
                }
            }
        }
        if forbidden.contains(&key) || !chosen.insert(key) {
            attempts = attempts + 1;
            continue;
        }
        let ghost before = out@;
        out.push(candidate);
        proof {
            assert forall|i: int, j: int| 0 <= i < j < out@.len() implies out@[i] != out@[j] by {
                if j == out@.len() - 1 {
                    assert(out@[i] == before[i]);
                    assert(before.contains(out@[i]));
                }
            }
            assert forall|v: u64| #[trigger] chosen@.contains(v) <==> exists|jj: int| 0 <= jj < out@.len() && out@[jj].val() == v by {
                if v == key {
                    assert(out@[before.len() as int].val() == v);
                } else if chosen@.contains(v) {
                    let jj = choose|jj: int| 0 <= jj < before.len() && before[jj].val() == v;
                    assert(out@[jj] == before[jj]);
                } else if exists|jj: int| 0 <= jj < out@.len() && out@[jj].val() == v {
                    let jj = choose|jj: int| 0 <= jj < out@.len() && out@[jj].val() == v;
                    assert(jj < before.len());
                    assert(before[jj] == out@[jj]);
                }
            }
        }
        attempts = attempts + 1;
    }
    proof {
        if out@.len() < count {
            assert(attempts == OOD_ATTEMPTS);
        }
    }
    out
}

/// The value of `poly` at `point`.
pub fn evaluate_at(poly: &UnivariatePoly, point: Fp) -> (r: Fp)
    ensures
        r.val() == fmod(poly_eval(poly@, point.val() as int)),
{
    poly.evaluate(point)
}

/// The pairs `(xs[i], ys[i])`.
pub open spec fn zip_pairs(xs: Seq<Fp>, ys: Seq<Fp>) -> Seq<(Fp, Fp)> {
    Seq::new(xs.len(), |i: int| (xs[i], ys[i]))
}

/// The polynomial through the OOD pairs and the shift pairs, in that order.
pub fn verifier_interpolant(
    ood_points: &[Fp],
    ood_replies: &[Fp],
    shift_points: &[Fp],
    shift_answers: &[Fp],
) -> (r: UnivariatePoly)
    requires
        ood_points@.len() == ood_replies@.len(),
        shift_points@.len() == shift_answers@.len(),
        ood_points@.len() + shift_points@.len() >= 1,
        ood_points@.len() + shift_points@.len() < usize::MAX,
        distinct_xs(zip_pairs(ood_points@, ood_replies@) + zip_pairs(shift_points@, shift_answers@)),
    ensures
        is_stripped(r@),
        r@.len() <= ood_points@.len() + shift_points@.len(),
        forall|x: int| #[trigger] fmod(poly_eval(r@, x)) == fmod(
            lagrange_value(zip_pairs(ood_points@, ood_replies@) + zip_pairs(shift_points@, shift_answers@), x),
        ),
{
    let ghost all = zip_pairs(ood_points@, ood_replies@) + zip_pairs(shift_points@, shift_answers@);
    let mut points: Vec<(Fp, Fp)> = Vec::new();
    let mut i: usize = 0;
    while i < ood_points.len()
        invariant
            i <= ood_points@.len(),
            ood_points@.len() == ood_replies@.len(),
            points@ == zip_pairs(ood_points@, ood_replies@).subrange(0, i as int),
        decreases ood_points@.len() - i,
    {
        points.push((ood_points[i], ood_replies[i]));
        i = i + 1;
        assert(points@ =~= zip_pairs(ood_points@, ood_replies@).subrange(0, i as int));
    }
    let mut j: usize = 0;
    assert(points@ =~= zip_pairs(ood_points@, ood_replies@));
    while j < shift_points.len()
        invariant
            j <= shift_points@.len(),
            shift_points@.len() == shift_answers@.len(),
            points@ == zip_pairs(ood_points@, ood_replies@) + zip_pairs(shift_points@, shift_answers@).subrange(
                0,
                j as int,
            ),
        decreases shift_points@.len() - j,
    {
        points.push((shift_points[j], shift_answers[j]));
        j = j + 1;
        assert(points@ =~= zip_pairs(ood_points@, ood_replies@) + zip_pairs(shift_points@, shift_answers@).subrange(
            0,
            j as int,
        ));
    }
    assert(points@ =~= all);
    lagrange_interpolate(points.as_slice())
}

} // verus!
