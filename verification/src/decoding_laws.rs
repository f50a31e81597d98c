//! Unique decoding of Reed-Solomon codes: the disagreements of a
//! polynomial with a received word, the polynomials within the decoding
//! radius, and why there is at most one of them below the degree bound.
use crate::decode::bw_agrees;
use crate::domain::{lemma_domain_points_distinct, lemma_domain_wf, EvaluationDomain};
use crate::field::{fmod, lemma_from_val, Fp, MODULUS};
use crate::generator::lemma_no_zero_divisors;
use crate::poly_laws::{lemma_eval_add, lemma_eval_mul, lemma_eval_sub, lemma_mul_degree};
use crate::polynomial::{add_seq, coef, conv_prefix, is_stripped, lemma_poly_eval_strip, lemma_strip, mul_seq, poly_eval, strip, sub_seq};
use crate::roots::lemma_root_bound;
use crate::arith::{lemma_mod_add_congr, lemma_mod_mul_congr, lemma_mod_sub_congr};
use vstd::arithmetic::div_mod::{lemma_mod_bound, lemma_mod_twice, lemma_small_mod};
use vstd::prelude::*;
use vstd::relations::injective_on;
use vstd::set_lib::{lemma_int_range, lemma_len_subset, lemma_len_union, lemma_map_size, set_int_range};

verus! {

/// The positions `i` where `p(x_i)` differs from the received `y_i`.
pub open spec fn disagreements(p: Seq<Fp>, received: Seq<Fp>, domain: EvaluationDomain) -> Set<int> {
    Set::new(|i: int| 0 <= i < received.len() && fmod(poly_eval(p, domain.point(i))) != received[i].val())
}

/// `p` agrees with the received word at all but at most `e` positions.
pub open spec fn within_radius(p: Seq<Fp>, received: Seq<Fp>, domain: EvaluationDomain, e: nat) -> bool {
    disagreements(p, received, domain).len() <= e
}

/// `p` is a polynomial over `F_p` with at most `db` coefficients within
/// distance `e` of the received word.
pub open spec fn close_codeword(p: Seq<Fp>, received: Seq<Fp>, domain: EvaluationDomain, db: nat, e: nat) -> bool {
    &&& p.len() <= db
    &&& canonical_coeffs(p)
    &&& within_radius(p, received, domain, e)
}

/// Some polynomial with at most `db` coefficients is within distance `e`
/// of the received word.
pub open spec fn decodable(received: Seq<Fp>, domain: EvaluationDomain, db: nat, e: nat) -> bool {
    exists|p: Seq<Fp>| #[trigger] close_codeword(p, received, domain, db, e)
}

/// The points `x_i` of the positions `i` in `idx`.
pub open spec fn position_points(d: EvaluationDomain, idx: Set<int>) -> Set<int> {
    idx.map(|i: int| d.point(i))
}

/// A set of positions of a domain is finite, and its points are as many
/// distinct field values.
proof fn lemma_position_points(d: EvaluationDomain, idx: Set<int>)
    requires
        d.wf(),
        forall|i: int| #[trigger] idx.contains(i) ==> 0 <= i < d.spec_size(),
    ensures
        idx.finite(),
        idx.len() <= d.spec_size(),
        position_points(d, idx).finite(),
        position_points(d, idx).len() == idx.len(),
        forall|x: int| #[trigger] position_points(d, idx).contains(x) ==> 0 <= x < MODULUS,
{
    let n = d.spec_size() as int;
    let f = |i: int| d.point(i);
    lemma_int_range(0, n);
    lemma_len_subset(idx, set_int_range(0, n));
    assert(injective_on(f, idx)) by {
        assert forall|a: int, b: int| idx.contains(a) && idx.contains(b) && #[trigger] f(a) == #[trigger] f(b) implies a == b by {
            if a < b {
                lemma_domain_points_distinct(d, a, b);
            } else if b < a {
                lemma_domain_points_distinct(d, b, a);
            }
        }
    }
    assert(position_points(d, idx) == idx.map(f));
    lemma_map_size(idx, idx.map(f), f);
    assert forall|x: int| #[trigger] position_points(d, idx).contains(x) implies 0 <= x < MODULUS by {
        let i = choose|i: int| idx.contains(i) && x == f(i);
        lemma_mod_bound(d.spec_offset().val() * vstd::arithmetic::power::pow(d.spec_generator().val() as int, i as nat), MODULUS as int);
    }
}

/// A monic error locator of degree `e` has at most `e` roots among the points
/// of the domain: the Berlekamp-Welch agreement `p E = y E` puts `p` within
/// distance `e` of the received word.
pub proof fn lemma_bw_agrees_within_radius(p: Seq<Fp>, received: Seq<Fp>, d: EvaluationDomain, e: nat)
    requires
        d.wf(),
        received.len() == d.spec_size(),
        forall|i: int| 0 <= i < received.len() ==> (#[trigger] received[i]).val() < MODULUS,
        bw_agrees(p, received, d, e),
    ensures
        disagreements(p, received, d).finite(),
        within_radius(p, received, d, e),
{
    let m = MODULUS as int;
    let n = d.spec_size() as int;
    let err = choose|err: Seq<Fp>|
        err.len() == e + 1 && err[e as int].val() == 1 && forall|i: int|
            0 <= i < received.len() ==> #[trigger] fmod(poly_eval(p, d.point(i)) * poly_eval(err, d.point(i)))
                == fmod(received[i].val() * poly_eval(err, d.point(i)));
    let dis = disagreements(p, received, d);
    let zeros = Set::new(|i: int| 0 <= i < n && fmod(poly_eval(err, d.point(i))) == 0);
    // Every disagreement is a root of the error locator.
    assert forall|i: int| #[trigger] dis.contains(i) implies zeros.contains(i) by {
        let x = d.point(i);
        let y = received[i].val() as int;
        let px = poly_eval(p, x);
        let ex = poly_eval(err, x);
        if fmod(ex) != 0 {
            assert(fmod(px * ex) == fmod(y * ex));
            crate::arith::lemma_mod_sub_congr(px * ex, y * ex, y * ex, y * ex, m);
            assert(px * ex - y * ex == (px - y) * ex) by (nonlinear_arith);
            lemma_small_mod(0, MODULUS as nat);
            lemma_no_zero_divisors(px - y, ex);
            crate::arith::lemma_mod_add_congr(px - y, 0, y, y, m);
            lemma_small_mod(y as nat, MODULUS as nat);
        }
    }
    lemma_position_points(d, dis);
    lemma_position_points(d, zeros);
    lemma_len_subset(dis, zeros);
    if zeros.len() > e {
        let pts = position_points(d, zeros);
        assert forall|x: int| #[trigger] pts.contains(x) implies fmod(poly_eval(err, x)) == 0 by {
            let i = choose|i: int| zeros.contains(i) && x == d.point(i);
        }
        lemma_root_bound(err, pts);
        assert(fmod(err[e as int].val() as int) == 0);
        lemma_small_mod(1, MODULUS as nat);
    }
}

/// Unique decoding: two polynomials of at most `db` coefficients, each
/// within distance `e` of the same received word with `db + 2 e <= |L|`,
/// have the same coefficients.
pub proof fn lemma_unique_decoding(
    p1: Seq<Fp>,
    p2: Seq<Fp>,
    received: Seq<Fp>,
    d: EvaluationDomain,
    db: nat,
    e: nat,
)
    requires
        d.wf(),
        received.len() == d.spec_size(),
        db + 2 * e <= d.spec_size(),
        p1.len() <= db,
        p2.len() <= db,
        forall|i: int| 0 <= i < p1.len() ==> (#[trigger] p1[i]).val() < MODULUS,
        forall|i: int| 0 <= i < p2.len() ==> (#[trigger] p2[i]).val() < MODULUS,
        within_radius(p1, received, d, e),
        within_radius(p2, received, d, e),
    ensures
        forall|j: int| #[trigger] coef(p1, j) == coef(p2, j),
{
    let m = MODULUS as int;
    let n = d.spec_size() as int;
    let d1 = disagreements(p1, received, d);
    let d2 = disagreements(p2, received, d);
    let range = set_int_range(0, n);
    let agree = range.difference(d1.union(d2));
    lemma_position_points(d, d1);
    lemma_position_points(d, d2);
    lemma_len_union(d1, d2);
    lemma_int_range(0, n);
    assert(range.intersect(d1.union(d2)) =~= d1.union(d2));
    vstd::set_lib::lemma_set_difference_len(range, d1.union(d2));
    assert(agree.len() >= db);
    lemma_position_points(d, agree);
    // The difference vanishes at every agreement point.
    let s = sub_seq(p1, p2);
    let pts = position_points(d, agree);
    assert forall|x: int| #[trigger] pts.contains(x) implies fmod(poly_eval(s, x)) == 0 by {
        let i = choose|i: int| agree.contains(i) && x == d.point(i);
        crate::poly_laws::lemma_eval_sub(p1, p2, x);
        crate::polynomial::lemma_poly_eval_strip(s, x);
        let y = received[i].val() as int;
        assert(!d1.contains(i));
        assert(!d2.contains(i));
        assert(fmod(poly_eval(p1, x)) == y);
        assert(fmod(poly_eval(p2, x)) == y);
        crate::arith::lemma_mod_sub_congr(poly_eval(p1, x), poly_eval(p2, x), poly_eval(p2, x), poly_eval(p2, x), m);
        assert(poly_eval(p2, x) - poly_eval(p2, x) == 0);
        lemma_small_mod(0, MODULUS as nat);
    }
    lemma_root_bound(s, pts);
    assert forall|j: int| #[trigger] coef(p1, j) == coef(p2, j) by {
        if 0 <= j < s.len() {
            let v = fmod(coef(p1, j) - coef(p2, j));
            lemma_mod_bound(coef(p1, j) - coef(p2, j), m);
            lemma_from_val(v as nat);
            assert(s[j].val() == v);
            assert(fmod(s[j].val() as int) == 0);
            lemma_small_mod(v as nat, MODULUS as nat);
            assert(v == 0);
            vstd::arithmetic::div_mod::lemma_fundamental_div_mod(coef(p1, j) - coef(p2, j), m);
            let k = (coef(p1, j) - coef(p2, j)) / m;
            assert(coef(p1, j) - coef(p2, j) == 0) by (nonlinear_arith)
                requires
                    coef(p1, j) - coef(p2, j) == m * k + 0,
                    -m < coef(p1, j) - coef(p2, j) < m,
            ;
        }
    }
}


/// Every coefficient is a canonical field value.
pub open spec fn canonical_coeffs(s: Seq<Fp>) -> bool {
    forall|i: int| 0 <= i < s.len() ==> (#[trigger] s[i]).val() < MODULUS
}

/// The coefficients of a product are canonical.
pub proof fn lemma_mul_seq_canonical(a: Seq<Fp>, b: Seq<Fp>)
    ensures
        canonical_coeffs(mul_seq(a, b)),
{
    let s = mul_seq(a, b);
    assert forall|k: int| 0 <= k < s.len() implies (#[trigger] s[k]).val() < MODULUS by {
        let v = conv_prefix(a, b, a.len() as int, k);
        lemma_mod_bound(v, MODULUS as int);
        lemma_from_val(fmod(v) as nat);
    }
}

/// The coefficients of a difference are canonical.
pub proof fn lemma_sub_seq_canonical(a: Seq<Fp>, b: Seq<Fp>)
    ensures
        canonical_coeffs(sub_seq(a, b)),
{
    let s = sub_seq(a, b);
    assert forall|k: int| 0 <= k < s.len() implies (#[trigger] s[k]).val() < MODULUS by {
        lemma_mod_bound(coef(a, k) - coef(b, k), MODULUS as int);
        lemma_from_val(fmod(coef(a, k) - coef(b, k)) as nat);
    }
}

/// The monic linear factor `X - a`.
pub open spec fn linear_factor(a: int) -> Seq<Fp> {
    seq![Fp::from_val(fmod(0 - a) as nat), Fp::from_val(1)]
}

/// The monic polynomial `prod_j (X - pts[j])`.
pub open spec fn locator(pts: Seq<int>) -> Seq<Fp>
    decreases pts.len(),
{
    if pts.len() == 0 {
        seq![Fp::from_val(1)]
    } else {
        mul_seq(locator(pts.drop_last()), linear_factor(pts.last()))
    }
}

/// `X - a` is canonical, monic, and vanishes at `a`.
proof fn lemma_linear_factor(a: int)
    ensures
        linear_factor(a).len() == 2,
        linear_factor(a).last().val() == 1,
        canonical_coeffs(linear_factor(a)),
        fmod(poly_eval(linear_factor(a), a)) == 0,
{
    let m = MODULUS as int;
    let l = linear_factor(a);
    lemma_mod_bound(0 - a, m);
    lemma_from_val(fmod(0 - a) as nat);
    lemma_from_val(1);
    assert(l.drop_first() =~= seq![Fp::from_val(1)]);
    assert(l.drop_first().drop_first() =~= Seq::<Fp>::empty());
    assert(poly_eval(l.drop_first(), a) == 1 + a * poly_eval(l.drop_first().drop_first(), a));
    assert(poly_eval(l, a) == fmod(0 - a) + a * poly_eval(l.drop_first(), a));
    assert(poly_eval(l.drop_first().drop_first(), a) == 0);
    assert(a * 0 == 0);
    assert(a * 1 == a);
    assert(poly_eval(l, a) == fmod(0 - a) + a);
    lemma_mod_twice(0 - a, m);
    lemma_mod_add_congr(fmod(0 - a), 0 - a, a, a, m);
    lemma_small_mod(0, MODULUS as nat);
}

/// The locator of `k` points is canonical and monic with `k + 1`
/// coefficients, and it vanishes at each of the points.
pub proof fn lemma_locator(pts: Seq<int>)
    ensures
        locator(pts).len() == pts.len() + 1,
        locator(pts).last().val() == 1,
        is_stripped(locator(pts)),
        canonical_coeffs(locator(pts)),
        forall|j: int| 0 <= j < pts.len() ==> fmod(poly_eval(locator(pts), #[trigger] pts[j])) == 0,
    decreases pts.len(),
{
    let m = MODULUS as int;
    lemma_from_val(1);
    if pts.len() > 0 {
        let rest = pts.drop_last();
        let a = locator(rest);
        let l = linear_factor(pts.last());
        lemma_locator(rest);
        lemma_linear_factor(pts.last());
        lemma_mul_degree(a, l);
        lemma_mul_seq_canonical(a, l);
        lemma_small_mod(1, MODULUS as nat);
        assert(locator(pts) == mul_seq(a, l));
        assert forall|j: int| 0 <= j < pts.len() implies fmod(poly_eval(locator(pts), #[trigger] pts[j])) == 0 by {
            let x = pts[j];
            lemma_eval_mul(a, l, x);
            let ea = poly_eval(a, x);
            let el = poly_eval(l, x);
            lemma_small_mod(0, MODULUS as nat);
            if j == pts.len() - 1 {
                lemma_mod_mul_congr(ea, ea, el, 0, m);
                assert(ea * 0 == 0);
            } else {
                assert(rest[j] == x);
                lemma_mod_mul_congr(ea, 0, el, el, m);
                assert(0 * el == 0);
            }
        }
    }
}

/// The disagreements among the first `k` positions.
pub open spec fn disagreements_below(p: Seq<Fp>, received: Seq<Fp>, domain: EvaluationDomain, k: int) -> Set<int> {
    Set::new(|i: int| 0 <= i < k && fmod(poly_eval(p, domain.point(i))) != received[i].val())
}

/// The points `x_i` of the disagreements among the first `k` positions, in order.
pub open spec fn disagreement_points(p: Seq<Fp>, received: Seq<Fp>, domain: EvaluationDomain, k: nat) -> Seq<int>
    decreases k,
{
    if k == 0 {
        Seq::empty()
    } else {
        let prev = disagreement_points(p, received, domain, (k - 1) as nat);
        if fmod(poly_eval(p, domain.point(k - 1))) != received[k - 1].val() {
            prev.push(domain.point(k - 1))
        } else {
            prev
        }
    }
}

/// The list of disagreement points has one entry per disagreement and
/// holds the point of each.
proof fn lemma_disagreement_points(p: Seq<Fp>, received: Seq<Fp>, domain: EvaluationDomain, k: nat)
    ensures
        disagreements_below(p, received, domain, k as int).finite(),
        disagreement_points(p, received, domain, k).len() == disagreements_below(p, received, domain, k as int).len(),
        forall|i: int| #[trigger] disagreements_below(p, received, domain, k as int).contains(i)
            ==> disagreement_points(p, received, domain, k).contains(domain.point(i)),
    decreases k,
{
    if k == 0 {
        assert(disagreements_below(p, received, domain, 0) =~= Set::<int>::empty());
    } else {
        let k1 = (k - 1) as nat;
        let i0 = k - 1;
        lemma_disagreement_points(p, received, domain, k1);
        let prev_set = disagreements_below(p, received, domain, k1 as int);
        let prev = disagreement_points(p, received, domain, k1);
        let cur_set = disagreements_below(p, received, domain, k as int);
        let cur = disagreement_points(p, received, domain, k);
        if fmod(poly_eval(p, domain.point(i0))) != received[i0].val() {
            assert(cur_set =~= prev_set.insert(i0));
            assert(!prev_set.contains(i0));
            assert(cur == prev.push(domain.point(i0)));
            assert forall|i: int| #[trigger] cur_set.contains(i) implies cur.contains(domain.point(i)) by {
                if i == i0 {
                    assert(cur[prev.len() as int] == domain.point(i0));
                } else {
                    assert(prev_set.contains(i));
                    let j = choose|j: int| 0 <= j < prev.len() && prev[j] == domain.point(i);
                    assert(cur[j] == prev[j]);
                }
            }
        } else {
            assert(cur_set =~= prev_set);
        }
    }
}

/// A monic error locator of degree `e` for `p`: the product of the
/// factors `X - x_i` over the disagreements, times a power of `X`.
pub open spec fn error_locator(p: Seq<Fp>, received: Seq<Fp>, domain: EvaluationDomain, e: nat) -> Seq<Fp> {
    let dp = disagreement_points(p, received, domain, received.len());
    locator(dp + Seq::new((e - dp.len()) as nat, |j: int| 0int))
}

/// Within distance `e`, the error locator is monic of degree `e` and
/// vanishes at every disagreement.
pub proof fn lemma_error_locator(p: Seq<Fp>, received: Seq<Fp>, domain: EvaluationDomain, e: nat)
    requires
        within_radius(p, received, domain, e),
    ensures
        disagreements(p, received, domain).finite(),
        error_locator(p, received, domain, e).len() == e + 1,
        error_locator(p, received, domain, e).last().val() == 1,
        is_stripped(error_locator(p, received, domain, e)),
        canonical_coeffs(error_locator(p, received, domain, e)),
        forall|i: int| #[trigger] disagreements(p, received, domain).contains(i)
            ==> fmod(poly_eval(error_locator(p, received, domain, e), domain.point(i))) == 0,
{
    let n = received.len();
    lemma_disagreement_points(p, received, domain, n);
    assert(disagreements_below(p, received, domain, n as int) =~= disagreements(p, received, domain));
    let dp = disagreement_points(p, received, domain, n);
    let pts = dp + Seq::new((e - dp.len()) as nat, |j: int| 0int);
    assert(pts.len() == e);
    lemma_locator(pts);
    assert forall|i: int| #[trigger] disagreements(p, received, domain).contains(i) implies fmod(
        poly_eval(error_locator(p, received, domain, e), domain.point(i)),
    ) == 0 by {
        assert(disagreements_below(p, received, domain, n as int).contains(i));
        let j = choose|j: int| 0 <= j < dp.len() && dp[j] == domain.point(i);
        assert(pts[j] == dp[j]);
    }
}

/// A polynomial with at most `p` coefficients that vanishes
/// everywhere has only zero coefficients.
pub proof fn lemma_zero_function(s: Seq<Fp>)
    requires
        s.len() <= MODULUS,
        canonical_coeffs(s),
        forall|x: int| #[trigger] fmod(poly_eval(s, x)) == 0,
    ensures
        forall|j: int| 0 <= j < s.len() ==> (#[trigger] s[j]).val() == 0,
{
    let pts = set_int_range(0, s.len() as int);
    lemma_int_range(0, s.len() as int);
    assert forall|x: int| #[trigger] pts.contains(x) implies fmod(poly_eval(s, x)) == 0 by {}
    lemma_root_bound(s, pts);
    assert forall|j: int| 0 <= j < s.len() implies (#[trigger] s[j]).val() == 0 by {
        lemma_small_mod(s[j].val(), MODULUS as nat);
    }
}

/// The coefficients of a sum are canonical.
pub proof fn lemma_add_seq_canonical(a: Seq<Fp>, b: Seq<Fp>)
    ensures
        canonical_coeffs(add_seq(a, b)),
{
    let s = add_seq(a, b);
    assert forall|k: int| 0 <= k < s.len() implies (#[trigger] s[k]).val() < MODULUS by {
        lemma_mod_bound(coef(a, k) + coef(b, k), MODULUS as int);
        lemma_from_val(fmod(coef(a, k) + coef(b, k)) as nat);
    }
}

/// Two canonical values that agree modulo `p` are equal.
proof fn lemma_canonical_congruent(u: int, v: int)
    requires
        0 <= u < MODULUS,
        0 <= v < MODULUS,
        fmod(u - v) == 0,
    ensures
        u == v,
{
    let m = MODULUS as int;
    vstd::arithmetic::div_mod::lemma_fundamental_div_mod(u - v, m);
    let k = (u - v) / m;
    assert(u - v == 0) by (nonlinear_arith)
        requires
            u - v == m * k + 0,
            -m < u - v < m,
    ;
}

/// Two polynomials over `F_p` with at most `p` coefficients that take the
/// same value everywhere have the same coefficients.
pub proof fn lemma_equal_values_equal_coeffs(a: Seq<Fp>, b: Seq<Fp>)
    requires
        canonical_coeffs(a),
        canonical_coeffs(b),
        a.len() <= MODULUS,
        b.len() <= MODULUS,
        forall|x: int| #[trigger] fmod(poly_eval(a, x)) == fmod(poly_eval(b, x)),
    ensures
        forall|j: int| #[trigger] coef(a, j) == coef(b, j),
{
    let m = MODULUS as int;
    let s = sub_seq(a, b);
    lemma_sub_seq_canonical(a, b);
    assert forall|x: int| #[trigger] fmod(poly_eval(s, x)) == 0 by {
        lemma_eval_sub(a, b, x);
        lemma_poly_eval_strip(s, x);
        assert(fmod(poly_eval(a, x)) == fmod(poly_eval(b, x)));
        lemma_mod_sub_congr(poly_eval(a, x), poly_eval(b, x), poly_eval(b, x), poly_eval(b, x), m);
        lemma_small_mod(0, MODULUS as nat);
    }
    lemma_zero_function(s);
    assert forall|j: int| #[trigger] coef(a, j) == coef(b, j) by {
        if 0 <= j < s.len() {
            let v = fmod(coef(a, j) - coef(b, j));
            lemma_mod_bound(coef(a, j) - coef(b, j), m);
            lemma_from_val(v as nat);
            assert(s[j].val() == v);
            lemma_canonical_congruent(coef(a, j), coef(b, j));
        }
    }
}

/// Division with remainder on coefficients: when `dividend = q d + r` holds
/// at every point (as `poly_divmod` ensures) and the lengths stay within
/// `p`, every coefficient of `dividend` is the coefficient of `q d + r`.
pub proof fn lemma_divmod_coefficients(dividend: Seq<Fp>, q: Seq<Fp>, d: Seq<Fp>, r: Seq<Fp>)
    requires
        canonical_coeffs(dividend),
        dividend.len() <= MODULUS,
        q.len() + d.len() <= MODULUS,
        r.len() <= MODULUS,
        forall|x: int| #[trigger] fmod(poly_eval(dividend, x)) == fmod(
            poly_eval(q, x) * poly_eval(d, x) + poly_eval(r, x),
        ),
    ensures
        forall|j: int| #[trigger] coef(dividend, j) == coef(add_seq(mul_seq(q, d), r), j),
{
    let m = MODULUS as int;
    let mq = mul_seq(q, d);
    let x_seq = add_seq(mq, r);
    lemma_add_seq_canonical(mq, r);
    assert forall|x: int| #[trigger] fmod(poly_eval(dividend, x)) == fmod(poly_eval(x_seq, x)) by {
        lemma_eval_add(mq, r, x);
        lemma_poly_eval_strip(x_seq, x);
        lemma_eval_mul(q, d, x);
        lemma_poly_eval_strip(mq, x);
        lemma_mod_add_congr(poly_eval(mq, x), poly_eval(q, x) * poly_eval(d, x), poly_eval(r, x), poly_eval(r, x), m);
    }
    lemma_equal_values_equal_coeffs(dividend, x_seq);
}

/// A stripped polynomial with only zero coefficients is empty.
proof fn lemma_stripped_zero(s: Seq<Fp>)
    requires
        is_stripped(s),
        forall|j: int| 0 <= j < s.len() ==> (#[trigger] s[j]).val() == 0,
    ensures
        s.len() == 0,
{
    if s.len() > 0 {
        assert(s[s.len() - 1].val() == 0);
    }
}

/// If `p E = quot E + rem` as functions, with `E` non-zero and `rem` of
/// lower degree than `E`, then `rem` is the zero polynomial.
pub proof fn lemma_exact_division(p: Seq<Fp>, quot: Seq<Fp>, rem: Seq<Fp>, err: Seq<Fp>)
    requires
        canonical_coeffs(p),
        canonical_coeffs(quot),
        canonical_coeffs(rem),
        canonical_coeffs(err),
        err.len() >= 1,
        is_stripped(err),
        is_stripped(rem),
        rem.len() < err.len(),
        p.len() + quot.len() + err.len() <= MODULUS,
        forall|x: int| #[trigger] fmod(poly_eval(rem, x)) == fmod(
            poly_eval(p, x) * poly_eval(err, x) - poly_eval(quot, x) * poly_eval(err, x),
        ),
    ensures
        rem.len() == 0,
{
    let m = MODULUS as int;
    let t = sub_seq(p, quot);
    let ts = strip(t);
    lemma_sub_seq_canonical(p, quot);
    lemma_strip(t);
    assert forall|i: int| 0 <= i < ts.len() implies (#[trigger] ts[i]).val() < MODULUS by {
        assert(ts[i] == t[i]);
    }
    assert forall|x: int| #[trigger] fmod(poly_eval(rem, x)) == fmod(poly_eval(ts, x) * poly_eval(err, x)) by {
        let px = poly_eval(p, x);
        let qx = poly_eval(quot, x);
        let ex = poly_eval(err, x);
        lemma_eval_sub(p, quot, x);
        assert(px * ex - qx * ex == (px - qx) * ex) by (nonlinear_arith);
        lemma_mod_mul_congr(px - qx, poly_eval(ts, x), ex, ex, m);
    }
    if ts.len() > 0 {
        let mm = mul_seq(ts, err);
        lemma_mul_degree(ts, err);
        lemma_strip(mm);
        lemma_mul_seq_canonical(ts, err);
        assert(mm.last().val() != 0);
        let sd = sub_seq(mm, rem);
        let top = mm.len() - 1;
        assert(sd.len() == mm.len());
        assert(coef(rem, top) == 0);
        assert(coef(mm, top) == mm.last().val());
        lemma_small_mod(mm.last().val(), MODULUS as nat);
        lemma_from_val(mm.last().val());
        assert(sd.last().val() == mm.last().val());
        lemma_strip(sd);
        lemma_sub_seq_canonical(mm, rem);
        assert forall|x: int| #[trigger] fmod(poly_eval(sd, x)) == 0 by {
            lemma_eval_sub(mm, rem, x);
            lemma_eval_mul(ts, err, x);
            assert(fmod(poly_eval(rem, x)) == fmod(poly_eval(ts, x) * poly_eval(err, x)));
            assert(fmod(poly_eval(mm, x)) == fmod(poly_eval(rem, x)));
            lemma_mod_sub_congr(poly_eval(mm, x), poly_eval(rem, x), poly_eval(rem, x), poly_eval(rem, x), m);
            lemma_small_mod(0, MODULUS as nat);
        }
        lemma_zero_function(sd);
        assert(sd[top].val() == 0);
    }
    assert forall|x: int| #[trigger] fmod(poly_eval(rem, x)) == 0 by {
        assert(poly_eval(ts, x) == 0);
        assert(0 * poly_eval(err, x) == 0);
        lemma_small_mod(0, MODULUS as nat);
    }
    lemma_zero_function(rem);
    lemma_stripped_zero(rem);
}

/// Berlekamp-Welch key equation: if `Q(x_i) = y_i E(x_i)` at every point,
/// `Q` has at most `d + e` coefficients and `p` (at most `d` coefficients)
/// is within distance `e` with `d + 2 e <= |L|`, then `Q = p E` as functions.
pub proof fn lemma_key_equation_factors(
    q: Seq<Fp>,
    err: Seq<Fp>,
    p: Seq<Fp>,
    received: Seq<Fp>,
    domain: EvaluationDomain,
    d: nat,
    e: nat,
)
    requires
        domain.wf(),
        received.len() == domain.spec_size(),
        d + 2 * e <= domain.spec_size(),
        q.len() <= d + e,
        err.len() == e + 1,
        p.len() <= d,
        canonical_coeffs(received),
        within_radius(p, received, domain, e),
        forall|i: int| 0 <= i < received.len() ==> #[trigger] fmod(poly_eval(q, domain.point(i))) == fmod(
            received[i].val() * poly_eval(err, domain.point(i)),
        ),
    ensures
        forall|x: int| #[trigger] fmod(poly_eval(q, x)) == fmod(poly_eval(p, x) * poly_eval(err, x)),
{
    let m = MODULUS as int;
    let n = domain.spec_size() as int;
    let mp = mul_seq(p, err);
    let r = sub_seq(q, mp);
    let rs = strip(r);
    let dis = disagreements(p, received, domain);
    let range = set_int_range(0, n);
    let agree = range.difference(dis);
    lemma_position_points(domain, dis);
    lemma_int_range(0, n);
    assert(range.intersect(dis) =~= dis);
    vstd::set_lib::lemma_set_difference_len(range, dis);
    assert(agree.len() >= d + e);
    lemma_position_points(domain, agree);
    lemma_strip(r);
    let pts = position_points(domain, agree);
    assert forall|x: int| #[trigger] pts.contains(x) implies fmod(poly_eval(rs, x)) == 0 by {
        let i = choose|i: int| agree.contains(i) && x == domain.point(i);
        let y = received[i].val() as int;
        let px = poly_eval(p, x);
        let ex = poly_eval(err, x);
        assert(!dis.contains(i));
        assert(fmod(px) == y);
        assert(fmod(poly_eval(q, x)) == fmod(y * ex));
        lemma_mod_twice(px, m);
        lemma_mod_mul_congr(y, px, ex, ex, m);
        lemma_eval_mul(p, err, x);
        crate::polynomial::lemma_poly_eval_strip(mp, x);
        lemma_eval_sub(q, mp, x);
        lemma_mod_sub_congr(poly_eval(q, x), poly_eval(mp, x), poly_eval(mp, x), poly_eval(mp, x), m);
        lemma_small_mod(0, MODULUS as nat);
    }
    lemma_root_bound(rs, pts);
    lemma_sub_seq_canonical(q, mp);
    assert forall|j: int| 0 <= j < rs.len() implies (#[trigger] rs[j]).val() == 0 by {
        assert(rs[j] == r[j]);
        lemma_small_mod(r[j].val(), MODULUS as nat);
    }
    lemma_stripped_zero(rs);
    assert forall|x: int| #[trigger] fmod(poly_eval(q, x)) == fmod(poly_eval(p, x) * poly_eval(err, x)) by {
        lemma_eval_sub(q, mp, x);
        lemma_eval_mul(p, err, x);
        crate::polynomial::lemma_poly_eval_strip(mp, x);
        lemma_small_mod(0, MODULUS as nat);
        lemma_mod_add_congr(poly_eval(q, x) - poly_eval(mp, x), 0, poly_eval(mp, x), poly_eval(mp, x), m);
    }
}

} // verus!
