//! The Reed-Solomon encoder `RS[F_p, L, d]`: a message polynomial of
//! degree `< d` is mapped to its evaluation table on the domain `L`.
use crate::domain::EvaluationDomain;
use crate::fft::{domain_values, fft_on_domain};
use crate::field::{fmod, lemma_from_val, Fp};
use crate::polynomial::{is_stripped, poly_eval, lemma_poly_eval_drop_last, UnivariatePoly};
use vstd::arithmetic::power::pow;
use vstd::prelude::*;

verus! {

/// The codeword of the message `m` on the domain `d`: `(m(x))_{x in L}`.
pub open spec fn codeword(m: Seq<Fp>, d: EvaluationDomain) -> Seq<Fp> {
    Seq::new(d.spec_size(), |j: int| Fp::from_val(fmod(poly_eval(m, d.point(j))) as nat))
}

/// `s` followed by `k` zero coefficients.
pub open spec fn zero_pad(s: Seq<Fp>, k: nat) -> Seq<Fp> {
    s + Seq::new(k, |i: int| Fp::from_val(0))
}

/// Zero coefficients on top do not change the value of a polynomial.
pub proof fn lemma_poly_eval_zero_pad(s: Seq<Fp>, k: nat, x: int)
    ensures
        poly_eval(zero_pad(s, k), x) == poly_eval(s, x),
    decreases k,
{
    if k == 0 {
        assert(zero_pad(s, 0) =~= s);
    } else {
        let t = zero_pad(s, k);
        lemma_from_val(0);
        assert(t.drop_last() =~= zero_pad(s, (k - 1) as nat));
        lemma_poly_eval_drop_last(t, x);
        assert(t.last() == Fp::from_val(0));
        assert(t.last().val() == 0);
        lemma_poly_eval_zero_pad(s, (k - 1) as nat, x);
        let pw = pow(x, (t.len() - 1) as nat);
        assert(t.last().val() * pw == 0) by {
            vstd::arithmetic::mul::lemma_mul_basics(pw);
        }
        assert(poly_eval(t, x) == poly_eval(t.drop_last(), x));
        assert(poly_eval(t.drop_last(), x) == poly_eval(s, x));
    }
}

/// A Reed-Solomon code `RS[F_p, L, d]`.
#[derive(Clone, Copy, Debug)]
pub struct ReedSolomonCode {
    domain: EvaluationDomain,
    degree_bound: usize,
}

impl ReedSolomonCode {
    /// The degree bound never exceeds the domain size.
    #[verifier::type_invariant]
    pub closed spec fn wf(self) -> bool {
        self.degree_bound <= self.domain.spec_size()
    }

    /// The evaluation domain `L`.
    pub closed spec fn spec_domain(self) -> EvaluationDomain {
        self.domain
    }

    /// The degree bound `d`.
    pub closed spec fn spec_degree_bound(self) -> nat {
        self.degree_bound as nat
    }

    /// The code with domain `domain` and degree bound `degree_bound <= |L|`.
    pub fn new(domain: EvaluationDomain, degree_bound: usize) -> (r: ReedSolomonCode)
        requires
            degree_bound <= domain.spec_size(),
        ensures
            r.spec_domain() == domain,
            r.spec_degree_bound() == degree_bound,
    {
        ReedSolomonCode { domain, degree_bound }
    }

    /// The codeword length `n = |L|`.
    pub fn codeword_len(&self) -> (r: usize)
        ensures
            r == self.spec_domain().spec_size(),
    {
        self.domain.size()
    }

    /// The degree bound `d`.
    pub fn degree_bound(&self) -> (r: usize)
        ensures
            r == self.spec_degree_bound(),
    {
        self.degree_bound
    }

    /// The evaluation domain.
    pub fn domain(&self) -> (r: &EvaluationDomain)
        ensures
            *r == self.spec_domain(),
    {
        &self.domain
    }

    /// The rate as the unreduced fraction `(d, n)`.
    pub fn rate(&self) -> (r: (usize, usize))
        ensures
            r.0 == self.spec_degree_bound(),
            r.1 == self.spec_domain().spec_size(),
            r.0 <= r.1,
    {
        proof {
            use_type_invariant(self);
        }
        (self.degree_bound, self.codeword_len())
    }

    /// Encode with the FFT: zero-pad the coefficients to `n` and evaluate on `L`.
    pub fn encode(&self, message: &UnivariatePoly) -> (r: Vec<Fp>)
        requires
            message@.len() <= self.spec_degree_bound(),
        ensures
            r@ == codeword(message@, self.spec_domain()),
    {
        proof {
            use_type_invariant(self);
        }
        let n = self.codeword_len();
        let coeffs = message.coeffs();
        let mut padded: Vec<Fp> = Vec::new();
        let mut i: usize = 0;
        while i < n
            invariant
                i <= n,
                n == self.spec_domain().spec_size(),
                coeffs@.len() <= n,
                padded@.len() == i,
                forall|j: int| 0 <= j < i ==> (#[trigger] padded@[j]) == (if j < coeffs@.len() {
                    coeffs@[j]
                } else {
                    Fp::from_val(0)
                }),
            decreases n - i,
        {
            let x = if i < coeffs.len() {
                coeffs[i]
            } else {
                Fp::zero()
            };
            proof {
                if i >= coeffs@.len() {
                    lemma_from_val(0);
                    crate::field::lemma_val_eq(x, Fp::from_val(0));
                }
            }
            padded.push(x);
            i = i + 1;
        }
        let ghost pad = zero_pad(message@, (n - message@.len()) as nat);
        assert(padded@ =~= pad);
        let r = fft_on_domain(padded.as_slice(), &self.domain);
        proof {
            assert forall|j: int| 0 <= j < n implies poly_eval(pad, self.domain.point(j)) == poly_eval(
                message@,
                self.domain.point(j),
            ) by {
                lemma_poly_eval_zero_pad(message@, (n - message@.len()) as nat, self.domain.point(j));
            }
        }
        assert(r@ =~= codeword(message@, self.spec_domain()));
        r
    }

    /// Encode by evaluating the message at every domain point with Horner's rule.
    pub fn encode_naive(&self, message: &UnivariatePoly) -> (r: Vec<Fp>)
        requires
            message@.len() <= self.spec_degree_bound(),
        ensures
            r@ == codeword(message@, self.spec_domain()),
    {
        let n = self.codeword_len();
        let mut out: Vec<Fp> = Vec::new();
        let mut i: usize = 0;
        while i < n
            invariant
                i <= n,
                n == self.spec_domain().spec_size(),
                out@ == codeword(message@, self.spec_domain()).subrange(0, i as int),
            decreases n - i,
        {
            let x = self.domain.element(i);
            let y = message.evaluate(x);
            out.push(y);
            proof {
                lemma_from_val(fmod(poly_eval(message@, self.domain.point(i as int))) as nat);
                crate::field::lemma_val_eq(y, codeword(message@, self.spec_domain())[i as int]);
            }
            i = i + 1;
            assert(out@ =~= codeword(message@, self.spec_domain()).subrange(0, i as int));
        }
        assert(out@ =~= codeword(message@, self.spec_domain()));
        out
    }
}

} // verus!
