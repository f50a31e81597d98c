//! Univariate polynomials over `F_p`, in coefficient form.
//!
//! A polynomial is modelled by its coefficient sequence (ascending degree).
//! Polynomials built by [`UnivariatePoly::new`] are *stripped*: the last
//! coefficient is non-zero, or the sequence is empty (the zero polynomial).
use crate::field::{fmod, lemma_from_val, lemma_val_eq, Fp, MODULUS};
use std::ops::{Add, Mul, Sub};
use vstd::arithmetic::div_mod::{
    lemma_add_mod_noop, lemma_mod_twice, lemma_mul_mod_noop_general, lemma_small_mod,
    lemma_sub_mod_noop,
};
use vstd::arithmetic::power::{lemma_pow0, lemma_pow_adds, pow};
use vstd::prelude::*;

verus! {

/// The `i`-th coefficient's value, `0` outside the sequence.
pub open spec fn coef(s: Seq<Fp>, i: int) -> int {
    if 0 <= i < s.len() {
        s[i].val() as int
    } else {
        0
    }
}

/// `s` with its trailing zero coefficients removed.
pub open spec fn strip(s: Seq<Fp>) -> Seq<Fp>
    decreases s.len(),
{
    if s.len() > 0 && s.last().val() == 0 {
        strip(s.drop_last())
    } else {
        s
    }
}

/// A coefficient sequence in canonical form: empty or with a non-zero last entry.
pub open spec fn is_stripped(s: Seq<Fp>) -> bool {
    s.len() == 0 || s.last().val() != 0
}

/// The exact integer `sum_i s[i] * x^i` (not reduced modulo `p`).
pub open spec fn poly_eval(s: Seq<Fp>, x: int) -> int
    decreases s.len(),
{
    if s.len() == 0 {
        0
    } else {
        s[0].val() + x * poly_eval(s.drop_first(), x)
    }
}

/// The coefficient sequence `Seq::new(len, |i| c_i mod p)` of a sum, before stripping.
pub open spec fn add_seq(a: Seq<Fp>, b: Seq<Fp>) -> Seq<Fp> {
    Seq::new(
        if a.len() >= b.len() { a.len() } else { b.len() },
        |i: int| Fp::from_val(fmod(coef(a, i) + coef(b, i)) as nat),
    )
}

/// The coefficient sequence of a difference, before stripping.
pub open spec fn sub_seq(a: Seq<Fp>, b: Seq<Fp>) -> Seq<Fp> {
    Seq::new(
        if a.len() >= b.len() { a.len() } else { b.len() },
        |i: int| Fp::from_val(fmod(coef(a, i) - coef(b, i)) as nat),
    )
}

/// `sum_{i' < i} a_i' * b_{k - i'}`: the first `i` terms of the `k`-th
/// convolution coefficient.
pub open spec fn conv_prefix(a: Seq<Fp>, b: Seq<Fp>, i: int, k: int) -> int
    decreases i,
{
    if i <= 0 {
        0
    } else {
        conv_prefix(a, b, i - 1, k) + coef(a, i - 1) * coef(b, k - (i - 1))
    }
}

/// The coefficient sequence of a product (schoolbook convolution), before stripping.
pub open spec fn mul_seq(a: Seq<Fp>, b: Seq<Fp>) -> Seq<Fp> {
    if a.len() == 0 || b.len() == 0 {
        Seq::empty()
    } else {
        Seq::new(
            (a.len() + b.len() - 1) as nat,
            |k: int| Fp::from_val(fmod(conv_prefix(a, b, a.len() as int, k)) as nat),
        )
    }
}

/// Every coefficient of `c` is a canonical field value.
pub(crate) fn coeffs_canonical(c: &[Fp])
    ensures
        forall|i: int| 0 <= i < c@.len() ==> (#[trigger] c@[i]).val() < MODULUS,
{
    let mut i: usize = 0;
    while i < c.len()
        invariant
            i <= c@.len(),
            forall|j: int| 0 <= j < i ==> (#[trigger] c@[j]).val() < MODULUS,
        decreases c@.len() - i,
    {
        let x = c[i];
        proof {
            use_type_invariant(&x);
            crate::field::lemma_canonical(x);
        }
        i = i + 1;
    }
}

/// `strip` removes only zero coefficients and leaves a canonical sequence.
pub proof fn lemma_strip(s: Seq<Fp>)
    ensures
        is_stripped(strip(s)),
        strip(s).len() <= s.len(),
        strip(s) == s.subrange(0, strip(s).len() as int),
        forall|i: int| strip(s).len() <= i < s.len() ==> (#[trigger] s[i]).val() == 0,
        is_stripped(s) ==> strip(s) == s,
    decreases s.len(),
{
    if s.len() > 0 && s.last().val() == 0 {
        lemma_strip(s.drop_last());
        assert(strip(s) == strip(s.drop_last()));
        assert forall|i: int| strip(s).len() <= i < s.len() implies (#[trigger] s[i]).val() == 0 by {
            if i < s.len() - 1 {
                assert(s.drop_last()[i] == s[i]);
            }
        }
        assert(strip(s) =~= s.subrange(0, strip(s).len() as int));
    } else {
        assert(s =~= s.subrange(0, s.len() as int));
    }
}

/// The value of a coefficient sequence is unchanged by zero coefficients on top.
pub proof fn lemma_poly_eval_drop_last(s: Seq<Fp>, x: int)
    requires
        s.len() > 0,
    ensures
        poly_eval(s, x) == poly_eval(s.drop_last(), x) + s.last().val() * pow(x, (s.len() - 1) as nat),
    decreases s.len(),
{
    if s.len() == 1 {
        reveal(pow);
        assert(poly_eval(s.drop_first(), x) == 0);
        assert(poly_eval(s.drop_last(), x) == 0);
        assert(s.last() == s[0]);
        assert(pow(x, 0) == 1);
    } else {
        let t = s.drop_first();
        lemma_poly_eval_drop_last(t, x);
        assert(t.drop_last() =~= s.drop_last().drop_first());
        assert(t.last() == s.last());
        reveal(pow);
        let n = (s.len() - 1) as nat;
        assert(pow(x, n) == x * pow(x, (n - 1) as nat));
        let a = poly_eval(t.drop_last(), x);
        let l = s.last().val() as int;
        assert(poly_eval(t, x) == a + l * pow(x, (n - 1) as nat));
        assert(poly_eval(s.drop_last(), x) == s[0].val() + x * a);
        assert(poly_eval(s, x) == s[0].val() + x * poly_eval(t, x));
        assert(x * (a + l * pow(x, (n - 1) as nat)) == x * a + l * (x * pow(x, (n - 1) as nat)))
            by (nonlinear_arith);
    }
}

/// Stripping does not change the value of a polynomial.
pub proof fn lemma_poly_eval_strip(s: Seq<Fp>, x: int)
    ensures
        poly_eval(strip(s), x) == poly_eval(s, x),
    decreases s.len(),
{
    if s.len() > 0 && s.last().val() == 0 {
        lemma_poly_eval_strip(s.drop_last(), x);
        lemma_poly_eval_drop_last(s, x);
    }
}

/// Horner's rule, read from the top coefficient: the value of the suffix
/// starting at `i - 1` in terms of the suffix starting at `i`.
pub proof fn lemma_poly_eval_suffix(s: Seq<Fp>, i: int, x: int)
    requires
        1 <= i <= s.len(),
    ensures
        poly_eval(s.subrange(i - 1, s.len() as int), x) == s[i - 1].val() + x * poly_eval(
            s.subrange(i, s.len() as int),
            x,
        ),
{
    assert(s.subrange(i - 1, s.len() as int).drop_first() =~= s.subrange(i, s.len() as int));
}

/// `((e mod p) * x mod p + c) mod p == (c + x * e) mod p`.
pub proof fn lemma_horner_mod(e: int, x: int, c: int)
    ensures
        ((fmod(e) * x) % (MODULUS as int) + c) % (MODULUS as int) == fmod(c + x * e),
{
    let m = MODULUS as int;
    lemma_mul_mod_noop_general(e, x, m);
    lemma_add_mod_noop(fmod(e) * x, c, m);
    lemma_mod_twice(fmod(e) * x, m);
    lemma_add_mod_noop(e * x, c, m);
    assert(e * x == x * e) by (nonlinear_arith);
}

/// A polynomial over `F_p`, stored in coefficient form.
#[derive(Clone, Debug, PartialEq, Eq)]
pub struct UnivariatePoly {
    coeffs: Vec<Fp>,
}

impl View for UnivariatePoly {
    type V = Seq<Fp>;

    /// The coefficient sequence, ascending degree.
    closed spec fn view(&self) -> Seq<Fp> {
        self.coeffs@
    }
}

impl UnivariatePoly {
    /// Construct a polynomial from its coefficients, ascending degree;
    /// trailing zeros are stripped.
    pub fn new(coeffs: Vec<Fp>) -> (r: UnivariatePoly)
        ensures
            r@ == strip(coeffs@),
            is_stripped(r@),
    {
        let mut coeffs = coeffs;
        let ghost orig = coeffs@;
        while coeffs.len() > 0 && coeffs[coeffs.len() - 1] == Fp::zero()
            invariant
                strip(coeffs@) == strip(orig),
            decreases coeffs.len(),
        {
            proof {
                broadcast use lemma_val_eq;

                assert(coeffs@.last().val() == 0);
                assert(coeffs@.drop_last() =~= coeffs@.subrange(0, coeffs@.len() - 1));
            }
            coeffs.pop();
            proof {
                assert(strip(coeffs@) == strip(orig));
            }
        }
        proof {
            broadcast use lemma_val_eq;

            lemma_strip(coeffs@);
            if coeffs@.len() > 0 {
                assert(coeffs@.last().val() != 0);
            }
        }
        UnivariatePoly { coeffs }
    }

    /// Construct from coefficients without stripping trailing zeros.
    pub fn from_coeffs_unstripped(coeffs: Vec<Fp>) -> (r: UnivariatePoly)
        ensures
            r@ == coeffs@,
    {
        UnivariatePoly { coeffs }
    }

    /// The zero polynomial.
    pub fn zero() -> (r: UnivariatePoly)
        ensures
            r@ == Seq::<Fp>::empty(),
    {
        UnivariatePoly { coeffs: Vec::new() }
    }

    /// The constant polynomial `1`.
    pub fn one() -> (r: UnivariatePoly)
        ensures
            r@.len() == 1,
            r@[0].val() == 1,
    {
        let mut coeffs = Vec::new();
        coeffs.push(Fp::one());
        UnivariatePoly { coeffs }
    }

    /// True iff this polynomial has no coefficients (the zero polynomial).
    pub fn is_zero(&self) -> (r: bool)
        ensures
            r == (self@.len() == 0),
    {
        self.coeffs.len() == 0
    }

    /// Degree of the polynomial: `None` for the zero polynomial, otherwise
    /// the index of the last stored coefficient.
    pub fn degree(&self) -> (r: Option<usize>)
        ensures
            self@.len() == 0 ==> r is None,
            self@.len() > 0 ==> r == Some((self@.len() - 1) as usize),
            r matches Some(d) ==> d + 1 == self@.len(),
    {
        if self.coeffs.len() == 0 {
            None
        } else {
            Some(self.coeffs.len() - 1)
        }
    }

    /// Read-only access to the coefficient vector.
    pub fn coeffs(&self) -> (r: &[Fp])
        ensures
            r@ == self@,
    {
        self.coeffs.as_slice()
    }

    /// Evaluate at `x` with Horner's rule.
    pub fn evaluate(&self, x: Fp) -> (r: Fp)
        ensures
            r.val() == fmod(poly_eval(self@, x.val() as int)),
    {
        let n = self.coeffs.len();
        let mut result = Fp::zero();
        let mut i = n;
        proof {
            assert(self.coeffs@.subrange(n as int, n as int) =~= Seq::<Fp>::empty());
        }
        while i > 0
            invariant
                n == self.coeffs@.len(),
                i <= n,
                result.val() == fmod(
                    poly_eval(self.coeffs@.subrange(i as int, n as int), x.val() as int),
                ),
            decreases i,
        {
            let c = self.coeffs[i - 1];
            proof {
                broadcast use lemma_from_val;

                lemma_poly_eval_suffix(self.coeffs@, i as int, x.val() as int);
                lemma_horner_mod(
                    poly_eval(self.coeffs@.subrange(i as int, n as int), x.val() as int),
                    x.val() as int,
                    c.val() as int,
                );
            }
            result = result * x + c;
            i = i - 1;
        }
        proof {
            assert(self.coeffs@.subrange(0, n as int) =~= self.coeffs@);
        }
        result
    }
}

impl vstd::std_specs::ops::AddSpecImpl for UnivariatePoly {
    open spec fn obeys_add_spec() -> bool {
        false
    }

    open spec fn add_req(self, rhs: UnivariatePoly) -> bool {
        true
    }

    open spec fn add_spec(self, rhs: UnivariatePoly) -> UnivariatePoly {
        arbitrary()
    }
}

impl Add for UnivariatePoly {
    type Output = UnivariatePoly;

    /// Coefficient-wise sum, re-stripped.
    fn add(self, rhs: UnivariatePoly) -> (r: UnivariatePoly)
        ensures
            r@ == strip(add_seq(self@, rhs@)),
    {
        let la = self.coeffs.len();
        let lb = rhs.coeffs.len();
        let len = if la >= lb { la } else { lb };
        let mut out: Vec<Fp> = Vec::with_capacity(len);
        for i in 0..len
            invariant
                la == self@.len(),
                lb == rhs@.len(),
                len == if la >= lb { la } else { lb },
                out@.len() == i,
                forall|j: int| 0 <= j < i ==> out@[j] == #[trigger] add_seq(self@, rhs@)[j],
        {
            let a = if i < la { self.coeffs[i] } else { Fp::zero() };
            let b = if i < lb { rhs.coeffs[i] } else { Fp::zero() };
            proof {
                broadcast use lemma_val_eq;

            }
            out.push(a + b);
        }
        proof {
            assert(out@ =~= add_seq(self@, rhs@));
        }
        UnivariatePoly::new(out)
    }
}

impl vstd::std_specs::ops::SubSpecImpl for UnivariatePoly {
    open spec fn obeys_sub_spec() -> bool {
        false
    }

    open spec fn sub_req(self, rhs: UnivariatePoly) -> bool {
        true
    }

    open spec fn sub_spec(self, rhs: UnivariatePoly) -> UnivariatePoly {
        arbitrary()
    }
}

impl Sub for UnivariatePoly {
    type Output = UnivariatePoly;

    /// Coefficient-wise difference, re-stripped.
    fn sub(self, rhs: UnivariatePoly) -> (r: UnivariatePoly)
        ensures
            r@ == strip(sub_seq(self@, rhs@)),
    {
        let la = self.coeffs.len();
        let lb = rhs.coeffs.len();
        let len = if la >= lb { la } else { lb };
        let mut out: Vec<Fp> = Vec::with_capacity(len);
        for i in 0..len
            invariant
                la == self@.len(),
                lb == rhs@.len(),
                len == if la >= lb { la } else { lb },
                out@.len() == i,
                forall|j: int| 0 <= j < i ==> out@[j] == #[trigger] sub_seq(self@, rhs@)[j],
        {
            let a = if i < la { self.coeffs[i] } else { Fp::zero() };
            let b = if i < lb { rhs.coeffs[i] } else { Fp::zero() };
            proof {
                broadcast use lemma_val_eq;

            }
            out.push(a - b);
        }
        proof {
            assert(out@ =~= sub_seq(self@, rhs@));
        }
        UnivariatePoly::new(out)
    }
}

impl vstd::std_specs::ops::MulSpecImpl for UnivariatePoly {
    open spec fn obeys_mul_spec() -> bool {
        false
    }

    open spec fn mul_req(self, rhs: UnivariatePoly) -> bool {
        self@.len() + rhs@.len() <= usize::MAX
    }

    open spec fn mul_spec(self, rhs: UnivariatePoly) -> UnivariatePoly {
        arbitrary()
    }
}

impl Mul for UnivariatePoly {
    type Output = UnivariatePoly;

    /// Schoolbook product, re-stripped.
    fn mul(self, rhs: UnivariatePoly) -> (r: UnivariatePoly)
        ensures
            r@ == strip(mul_seq(self@, rhs@)),
    {
        let la = self.coeffs.len();
        let lb = rhs.coeffs.len();
        if la == 0 || lb == 0 {
            proof {
                assert(strip(mul_seq(self@, rhs@)) =~= Seq::<Fp>::empty());
            }
            return UnivariatePoly::zero();
        }
        let n = la + lb - 1;
        let mut out: Vec<Fp> = vec![Fp::zero(); n];
        for i in 0..la
            invariant
                la == self@.len(),
                lb == rhs@.len(),
                la > 0,
                lb > 0,
                n == la + lb - 1,
                out@.len() == n,
                forall|k: int|
                    0 <= k < n ==> (#[trigger] out@[k]).val() == fmod(conv_prefix(self@, rhs@, i as int, k)),
        {
            for j in 0..lb
                invariant
                    la == self@.len(),
                    lb == rhs@.len(),
                    i < la,
                    n == la + lb - 1,
                    out@.len() == n,
                    forall|k: int|
                        0 <= k < n ==> (#[trigger] out@[k]).val() == fmod(
                            conv_prefix(self@, rhs@, i as int, k) + if i <= k < i + j {
                                coef(self@, i as int) * coef(rhs@, k - i)
                            } else {
                                0
                            },
                        ),
            {
                let prod = self.coeffs[i] * rhs.coeffs[j];
                let cur = out[i + j];
                proof {
                    broadcast use lemma_from_val;

                    let k = (i + j) as int;
                    let base = conv_prefix(self@, rhs@, i as int, k);
                    lemma_add_mod_noop(base, coef(self@, i as int) * coef(rhs@, k - i), MODULUS as int);
                }
                out.set(i + j, cur + prod);
            }
            proof {
                assert forall|k: int| 0 <= k < n implies (#[trigger] out@[k]).val() == fmod(
                    conv_prefix(self@, rhs@, (i + 1) as int, k),
                ) by {
                    if !(i <= k < i + lb) {
                        assert(coef(rhs@, k - i) == 0);
                        vstd::arithmetic::mul::lemma_mul_basics(coef(self@, i as int));
                    }
                    assert(conv_prefix(self@, rhs@, (i + 1) as int, k) == conv_prefix(self@, rhs@, i as int, k)
                        + coef(self@, i as int) * coef(rhs@, k - i));
                }
            }
        }
        proof {
            assert(out@ =~= mul_seq(self@, rhs@)) by {
                broadcast use lemma_val_eq;
                broadcast use lemma_from_val;

                assert forall|k: int| 0 <= k < n implies out@[k] == mul_seq(self@, rhs@)[k] by {
                    assert(out@[k].val() == mul_seq(self@, rhs@)[k].val());
                }
            }
        }
        UnivariatePoly::new(out)
    }
}

} // verus!
