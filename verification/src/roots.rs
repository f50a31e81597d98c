//! The root bound: a polynomial with `L` coefficients that vanishes at `L`
//! distinct points of `F_p` has only zero coefficients. The proof divides
//! by `(X - r)` one root at a time and uses the zero-product property.
use crate::arith::{lemma_mod_add_congr, lemma_mod_mul_congr, lemma_mod_sub_congr};
use crate::field::{fmod, lemma_from_val, Fp, MODULUS};
use crate::generator::lemma_no_zero_divisors;
use crate::polynomial::poly_eval;
use vstd::arithmetic::div_mod::{lemma_mod_bound, lemma_mod_twice, lemma_small_mod};
use vstd::prelude::*;

verus! {

/// The quotient of `s` by `(X - r)`: its coefficient `i` is the value at
/// `r` of the coefficients of `s` above `i`.
pub open spec fn div_linear(s: Seq<Fp>, r: int) -> Seq<Fp> {
    if s.len() == 0 {
        Seq::empty()
    } else {
        Seq::new((s.len() - 1) as nat, |i: int| Fp::from_val(fmod(poly_eval(s.subrange(i + 1, s.len() as int), r)) as nat))
    }
}

/// The factor theorem: `s(x) = s(r) + (x - r) (s / (X - r))(x)` modulo `p`.
pub proof fn lemma_div_linear(s: Seq<Fp>, r: int, x: int)
    ensures
        fmod(poly_eval(s, x)) == fmod(poly_eval(s, r) + (x - r) * poly_eval(div_linear(s, r), x)),
    decreases s.len(),
{
    let m = MODULUS as int;
    if s.len() == 0 {
        assert(poly_eval(div_linear(s, r), x) == 0);
        assert((x - r) * 0 == 0);
    } else if s.len() == 1 {
        assert(div_linear(s, r).len() == 0);
        assert(poly_eval(s.drop_first(), x) == 0);
        assert(poly_eval(s.drop_first(), r) == 0);
        assert(x * 0 == 0 && r * 0 == 0 && (x - r) * 0 == 0);
    } else {
        let t = s.drop_first();
        let len = s.len() as int;
        let q = div_linear(s, r);
        assert(t =~= s.subrange(1, len));
        assert(q.drop_first() =~= div_linear(t, r)) by {
            assert forall|i: int| 0 <= i < q.len() - 1 implies q.drop_first()[i] == div_linear(t, r)[i] by {
                assert(t.subrange(i + 1, t.len() as int) =~= s.subrange(i + 2, len));
            }
        }
        lemma_div_linear(t, r, x);
        let a = poly_eval(t, x);
        let b = poly_eval(t, r);
        let dt = poly_eval(div_linear(t, r), x);
        let fb = fmod(b);
        let s0 = s[0].val() as int;
        assert(q[0] == Fp::from_val(fb as nat));
        lemma_mod_bound(b, m);
        lemma_from_val(fb as nat);
        assert(poly_eval(q, x) == fb + x * dt);
        assert(poly_eval(s, x) == s0 + x * a);
        assert(poly_eval(s, r) == s0 + r * b);
        // s0 + x a = s0 + x (b + (x - r) dt) = s0 + r b + (x - r) (b + x dt) modulo p.
        lemma_mod_mul_congr(x, x, a, b + (x - r) * dt, m);
        lemma_mod_add_congr(s0, s0, x * a, x * (b + (x - r) * dt), m);
        lemma_mod_twice(b, m);
        lemma_mod_add_congr(fb, b, x * dt, x * dt, m);
        lemma_mod_mul_congr(x - r, x - r, fb + x * dt, b + x * dt, m);
        lemma_mod_add_congr(s0 + r * b, s0 + r * b, (x - r) * (fb + x * dt), (x - r) * (b + x * dt), m);
        assert(s0 + x * (b + (x - r) * dt) == s0 + r * b + (x - r) * (b + x * dt)) by (nonlinear_arith);
    }
}

/// If `s` vanishes at `r` and `s / (X - r)` has only zero coefficients,
/// so does `s` (modulo `p`).
pub proof fn lemma_div_linear_zero(s: Seq<Fp>, r: int)
    requires
        fmod(poly_eval(s, r)) == 0,
        forall|i: int| 0 <= i < div_linear(s, r).len() ==> (#[trigger] div_linear(s, r)[i]).val() == 0,
    ensures
        forall|j: int| 0 <= j < s.len() ==> fmod((#[trigger] s[j]).val() as int) == 0,
{
    let m = MODULUS as int;
    let len = s.len() as int;
    let q = div_linear(s, r);
    assert forall|j: int| 0 <= j < s.len() implies fmod((#[trigger] s[j]).val() as int) == 0 by {
        let cur = poly_eval(s.subrange(j, len), r);
        let nxt = poly_eval(s.subrange(j + 1, len), r);
        assert(s.subrange(j, len).drop_first() =~= s.subrange(j + 1, len));
        assert(cur == s[j].val() + r * nxt);
        // `nxt` is zero modulo `p`: it is coefficient `j` of the quotient, or empty.
        if j + 1 < len {
            assert(q[j].val() == 0);
            lemma_mod_bound(nxt, m);
            lemma_from_val(fmod(nxt) as nat);
        } else {
            assert(s.subrange(j + 1, len).len() == 0);
            lemma_small_mod(0, MODULUS as nat);
        }
        assert(fmod(nxt) == 0);
        // `cur` is zero modulo `p`: the value of `s` for `j = 0`, else coefficient `j - 1`.
        if j == 0 {
            assert(s.subrange(0, len) =~= s);
        } else {
            assert(q[j - 1].val() == 0);
            lemma_mod_bound(cur, m);
            lemma_from_val(fmod(cur) as nat);
        }
        assert(fmod(cur) == 0);
        lemma_mod_mul_congr(r, r, nxt, 0, m);
        assert(r * 0 == 0);
        lemma_mod_sub_congr(cur, 0, r * nxt, 0, m);
        lemma_small_mod(0, MODULUS as nat);
    }
}

/// The root bound: a polynomial with at most `|pts|` coefficients that
/// vanishes at every point of the finite set `pts` of field values has
/// only zero coefficients.
pub proof fn lemma_root_bound(s: Seq<Fp>, pts: Set<int>)
    requires
        pts.finite(),
        s.len() <= pts.len(),
        forall|x: int| pts.contains(x) ==> 0 <= x < MODULUS,
        forall|x: int| #[trigger] pts.contains(x) ==> fmod(poly_eval(s, x)) == 0,
    ensures
        forall|j: int| 0 <= j < s.len() ==> fmod((#[trigger] s[j]).val() as int) == 0,
    decreases s.len(),
{
    let m = MODULUS as int;
    if s.len() > 0 {
        let r = pts.choose();
        let rest = pts.remove(r);
        let q = div_linear(s, r);
        assert forall|x: int| #[trigger] rest.contains(x) implies fmod(poly_eval(q, x)) == 0 by {
            lemma_div_linear(s, r, x);
            lemma_mod_add_congr(poly_eval(s, r), 0, (x - r) * poly_eval(q, x), (x - r) * poly_eval(q, x), m);
            assert(0 + (x - r) * poly_eval(q, x) == (x - r) * poly_eval(q, x));
            assert(fmod((x - r) * poly_eval(q, x)) == 0);
            lemma_no_zero_divisors(x - r, poly_eval(q, x));
            if fmod(x - r) == 0 {
                vstd::arithmetic::div_mod::lemma_fundamental_div_mod(x - r, m);
                let k = (x - r) / m;
                assert(false) by (nonlinear_arith)
                    requires
                        x - r == m * k + 0,
                        x != r,
                        -m < x - r < m,
                ;
            }
        }
        lemma_root_bound(q, rest);
        assert forall|i: int| 0 <= i < q.len() implies (#[trigger] q[i]).val() == 0 by {
            let v = fmod(poly_eval(s.subrange(i + 1, s.len() as int), r));
            lemma_mod_bound(poly_eval(s.subrange(i + 1, s.len() as int), r), m);
            lemma_from_val(v as nat);
            lemma_small_mod(v as nat, MODULUS as nat);
        }
        lemma_div_linear_zero(s, r);
    }
}

} // verus!
