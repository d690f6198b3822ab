//! Polynomials of `Z_q[x]/(x^N + 1)` bound to a shared transform context.

use crate::context::{is_reduced, lemma_convolution_agrees, NttContext, NttError};
use crate::polymath::{
    add_spec, add_vec, naive_vec, negacyclic_spec, neg_spec, neg_vec, ntt_convolution_spec,
    pointwise_spec, sample_vec, sub_spec, sub_vec, zero_spec,
};
use std::sync::Arc;
use vstd::arithmetic::div_mod::*;
use vstd::prelude::*;

verus! {

/// Relies on Arc::clone: the new handle refers to the same context.
#[verifier::external_body]
fn share(c: &Arc<NttContext>) -> (r: Arc<NttContext>)
    ensures
        r == *c,
{
    Arc::clone(c)
}

/// `N` coefficients in `[0, q)` together with the context they live in.
#[derive(Debug, Clone)]
pub struct NttPolynomial {
    coeffs: Vec<u64>,
    context: Arc<NttContext>,
}

impl NttPolynomial {
    /// The coefficients.
    pub closed spec fn spec_coeffs(&self) -> Seq<u64> {
        self.coeffs@
    }

    /// The context.
    pub closed spec fn spec_context(&self) -> NttContext {
        *self.context
    }

    /// The modulus of the context.
    pub open spec fn spec_q(&self) -> int {
        self.spec_context().spec_modulus()
    }

    /// `N` canonical residues over a well-formed context.
    pub open spec fn wf(&self) -> bool {
        &&& self.spec_context().wf()
        &&& self.spec_coeffs().len() == self.spec_context().spec_degree()
        &&& is_reduced(self.spec_coeffs(), self.spec_q())
    }

    /// `self` and `other` may be combined: same modulus and degree.
    pub open spec fn compatible(&self, other: &NttPolynomial) -> bool {
        &&& self.spec_q() == other.spec_q()
        &&& self.spec_context().spec_degree() == other.spec_context().spec_degree()
    }

    /// The polynomial with the given coefficients; rejects a vector of the
    /// wrong length or with a coefficient outside `[0, q)`.
    pub fn from_coeffs(coeffs: Vec<u64>, context: Arc<NttContext>) -> (r: Result<Self, NttError>)
        requires
            context.wf(),
        ensures
            r is Ok <==> (coeffs@.len() == context.spec_degree() && is_reduced(
                coeffs@,
                context.spec_modulus(),
            )),
            r is Err ==> r->Err_0 == NttError::PreconditionViolation,
            r is Ok ==> {
                &&& r->Ok_0.wf()
                &&& r->Ok_0.spec_coeffs() == coeffs@
                &&& r->Ok_0.spec_context() == *context
            },
    {
        if coeffs.len() != context.degree() {
            return Err(NttError::PreconditionViolation);
        }
        let q = context.modulus();
        let mut i: usize = 0;
        while i < coeffs.len()
            invariant
                q == context.spec_modulus(),
                i <= coeffs@.len(),
                forall|j: int| 0 <= j < i ==> #[trigger] coeffs@[j] < q,
            decreases coeffs@.len() - i,
        {
            if coeffs[i] >= q {
                return Err(NttError::PreconditionViolation);
            }
            i = i + 1;
        }
        Ok(NttPolynomial { coeffs, context })
    }

    /// The zero polynomial.
    pub fn zero(context: Arc<NttContext>) -> (r: Self)
        requires
            context.wf(),
        ensures
            r.wf(),
            r.spec_coeffs() == zero_spec(context.spec_degree()),
            r.spec_context() == *context,
    {
        proof {
            context.lemma_wf_facts();
        }
        let n = context.degree();
        let mut coeffs: Vec<u64> = Vec::new();
        let mut i: usize = 0;
        while i < n
            invariant
                i <= n,
                coeffs@ == zero_spec(i as nat),
            decreases n - i,
        {
            coeffs.push(0);
            i = i + 1;
            assert(coeffs@ =~= zero_spec(i as nat));
        }
        NttPolynomial { coeffs, context }
    }

    /// `N` coefficients drawn uniformly from `[1, q)`.
    pub fn sample_random(context: Arc<NttContext>) -> (r: Self)
        requires
            context.wf(),
        ensures
            r.wf(),
            r.spec_context() == *context,
            forall|i: int| 0 <= i < r.spec_coeffs().len() ==> 1 <= #[trigger] r.spec_coeffs()[i],
    {
        proof {
            context.lemma_wf_facts();
        }
        let coeffs = sample_vec(context.degree(), context.modulus());
        NttPolynomial { coeffs, context }
    }

    /// The coefficients.
    pub fn coeffs(&self) -> (r: &Vec<u64>)
        ensures
            r@ == self.spec_coeffs(),
    {
        &self.coeffs
    }

    /// The coefficients, for writing; the caller keeps them in `[0, q)`.
    pub fn coeffs_mut(&mut self) -> (r: &mut Vec<u64>)
        ensures
            r@ == old(self).spec_coeffs(),
            final(self).spec_coeffs() == final(r)@,
            final(self).spec_context() == old(self).spec_context(),
    {
        &mut self.coeffs
    }

    /// The shared context.
    pub fn context(&self) -> (r: &Arc<NttContext>)
        ensures
            **r == self.spec_context(),
    {
        &self.context
    }

    /// Forward transform in place.
    pub fn ntt_forward(&mut self)
        requires
            old(self).wf(),
        ensures
            final(self).wf(),
            final(self).spec_context() == old(self).spec_context(),
            final(self).spec_coeffs() == old(self).spec_context().forward_spec(
                old(self).spec_coeffs(),
            ),
    {
        self.context.forward(&mut self.coeffs, false);
    }

    /// Inverse transform in place, normalization included.
    pub fn ntt_inverse(&mut self)
        requires
            old(self).wf(),
        ensures
            final(self).wf(),
            final(self).spec_context() == old(self).spec_context(),
            final(self).spec_coeffs() == old(self).spec_context().inverse_spec(
                old(self).spec_coeffs(),
            ),
    {
        self.context.inverse(&mut self.coeffs, false);
    }

    /// Forward transform in place with Shoup multiplication; the same
    /// result as `ntt_forward`.
    pub fn ntt_forward_shoup(&mut self)
        requires
            old(self).wf(),
        ensures
            final(self).wf(),
            final(self).spec_context() == old(self).spec_context(),
            final(self).spec_coeffs() == old(self).spec_context().forward_spec(
                old(self).spec_coeffs(),
            ),
    {
        self.context.forward(&mut self.coeffs, true);
    }

    /// Inverse transform in place with Shoup multiplication; the same result
    /// as `ntt_inverse`.
    pub fn ntt_inverse_shoup(&mut self)
        requires
            old(self).wf(),
        ensures
            final(self).wf(),
            final(self).spec_context() == old(self).spec_context(),
            final(self).spec_coeffs() == old(self).spec_context().inverse_spec(
                old(self).spec_coeffs(),
            ),
    {
        self.context.inverse(&mut self.coeffs, true);
    }

    /// Whether `other` has the same modulus and degree.
    fn check_compatible(&self, other: &NttPolynomial) -> (r: bool)
        requires
            self.wf(),
            other.wf(),
        ensures
            r == self.compatible(other),
    {
        self.context.modulus() == other.context.modulus() && self.context.degree()
            == other.context.degree()
    }

    fn convolve(&self, other: &Self, shoup: bool) -> (r: Result<Self, NttError>)
        requires
            self.wf(),
            other.wf(),
        ensures
            r is Err <==> !self.compatible(other),
            r is Err ==> r->Err_0 == NttError::ModulusMismatch,
            r is Ok ==> {
                &&& r->Ok_0.wf()
                &&& r->Ok_0.spec_context() == self.spec_context()
                &&& r->Ok_0.spec_coeffs() == ntt_convolution_spec(
                    self.spec_context(),
                    self.spec_coeffs(),
                    other.spec_coeffs(),
                )
                &&& r->Ok_0.spec_coeffs() == negacyclic_spec(
                    self.spec_coeffs(),
                    other.spec_coeffs(),
                    self.spec_q(),
                )
            },
    {
        if !self.check_compatible(other) {
            return Err(NttError::ModulusMismatch);
        }
        proof {
            self.context.lemma_wf_facts();
        }
        let mut a = self.coeffs.clone();
        let mut b = other.coeffs.clone();
        assert(a@ =~= self.coeffs@);
        assert(b@ =~= other.coeffs@);
        self.context.forward(&mut a, shoup);
        self.context.forward(&mut b, shoup);
        let mut c = self.context.pointwise(&a, &b);
        proof {
            assert forall|i: int| 0 <= i < c@.len() implies #[trigger] c@[i] < self.spec_q() by {
                lemma_mod_bound(a@[i] * b@[i], self.spec_q());
            }
            assert(c@ =~= pointwise_spec(a@, b@, self.spec_q()));
        }
        self.context.inverse(&mut c, shoup);
        proof {
            lemma_convolution_agrees(&*self.context, self.coeffs@, other.coeffs@);
        }
        Ok(NttPolynomial { coeffs: c, context: share(&self.context) })
    }

    /// The negacyclic product through the transform.
    pub fn negacyclic_convolution(&self, other: &Self) -> (r: Result<Self, NttError>)
        requires
            self.wf(),
            other.wf(),
        ensures
            r is Err <==> !self.compatible(other),
            r is Err ==> r->Err_0 == NttError::ModulusMismatch,
            r is Ok ==> {
                &&& r->Ok_0.wf()
                &&& r->Ok_0.spec_context() == self.spec_context()
                &&& r->Ok_0.spec_coeffs() == ntt_convolution_spec(
                    self.spec_context(),
                    self.spec_coeffs(),
                    other.spec_coeffs(),
                )
                &&& r->Ok_0.spec_coeffs() == negacyclic_spec(
                    self.spec_coeffs(),
                    other.spec_coeffs(),
                    self.spec_q(),
                )
            },
    {
        self.convolve(other, false)
    }

    /// The negacyclic product through the Shoup transforms; the same result
    /// as `negacyclic_convolution`.
    pub fn negacyclic_convolution_shoup(&self, other: &Self) -> (r: Result<Self, NttError>)
        requires
            self.wf(),
            other.wf(),
        ensures
            r is Err <==> !self.compatible(other),
            r is Err ==> r->Err_0 == NttError::ModulusMismatch,
            r is Ok ==> {
                &&& r->Ok_0.wf()
                &&& r->Ok_0.spec_context() == self.spec_context()
                &&& r->Ok_0.spec_coeffs() == ntt_convolution_spec(
                    self.spec_context(),
                    self.spec_coeffs(),
                    other.spec_coeffs(),
                )
                &&& r->Ok_0.spec_coeffs() == negacyclic_spec(
                    self.spec_coeffs(),
                    other.spec_coeffs(),
                    self.spec_q(),
                )
            },
    {
        self.convolve(other, true)
    }

    /// The schoolbook negacyclic product, the reference for the fast paths.
    pub fn naive_negacyclic_convolution(&self, other: &Self) -> (r: Result<Self, NttError>)
        requires
            self.wf(),
            other.wf(),
        ensures
            r is Err <==> !self.compatible(other),
            r is Err ==> r->Err_0 == NttError::ModulusMismatch,
            r is Ok ==> {
                &&& r->Ok_0.wf()
                &&& r->Ok_0.spec_context() == self.spec_context()
                &&& r->Ok_0.spec_coeffs() == negacyclic_spec(
                    self.spec_coeffs(),
                    other.spec_coeffs(),
                    self.spec_q(),
                )
            },
    {
        if !self.check_compatible(other) {
            return Err(NttError::ModulusMismatch);
        }
        let c = naive_vec(self.context.class(), &self.coeffs, &other.coeffs);
        Ok(NttPolynomial { coeffs: c, context: share(&self.context) })
    }

    /// Ring addition.
    pub fn add(&self, other: &Self) -> (r: Result<Self, NttError>)
        requires
            self.wf(),
            other.wf(),
        ensures
            r is Err <==> !self.compatible(other),
            r is Err ==> r->Err_0 == NttError::ModulusMismatch,
            r is Ok ==> {
                &&& r->Ok_0.wf()
                &&& r->Ok_0.spec_context() == self.spec_context()
                &&& r->Ok_0.spec_coeffs() == add_spec(
                    self.spec_coeffs(),
                    other.spec_coeffs(),
                    self.spec_q(),
                )
            },
    {
        if !self.check_compatible(other) {
            return Err(NttError::ModulusMismatch);
        }
        let c = add_vec(self.context.class(), &self.coeffs, &other.coeffs);
        Ok(NttPolynomial { coeffs: c, context: share(&self.context) })
    }

    /// In-place ring addition; on a mismatch `self` is left unchanged.
    pub fn add_assign(&mut self, other: &Self) -> (r: Result<(), NttError>)
        requires
            old(self).wf(),
            other.wf(),
        ensures
            final(self).wf(),
            final(self).spec_context() == old(self).spec_context(),
            r is Err <==> !old(self).compatible(other),
            r is Err ==> r->Err_0 == NttError::ModulusMismatch && final(self).spec_coeffs()
                == old(self).spec_coeffs(),
            r is Ok ==> final(self).spec_coeffs() == add_spec(
                old(self).spec_coeffs(),
                other.spec_coeffs(),
                old(self).spec_q(),
            ),
    {
        if !self.check_compatible(other) {
            return Err(NttError::ModulusMismatch);
        }
        self.coeffs = add_vec(self.context.class(), &self.coeffs, &other.coeffs);
        Ok(())
    }

    /// Ring subtraction.
    pub fn sub(&self, other: &Self) -> (r: Result<Self, NttError>)
        requires
            self.wf(),
            other.wf(),
        ensures
            r is Err <==> !self.compatible(other),
            r is Err ==> r->Err_0 == NttError::ModulusMismatch,
            r is Ok ==> {
                &&& r->Ok_0.wf()
                &&& r->Ok_0.spec_context() == self.spec_context()
                &&& r->Ok_0.spec_coeffs() == sub_spec(
                    self.spec_coeffs(),
                    other.spec_coeffs(),
                    self.spec_q(),
                )
            },
    {
        if !self.check_compatible(other) {
            return Err(NttError::ModulusMismatch);
        }
        let c = sub_vec(self.context.class(), &self.coeffs, &other.coeffs);
        Ok(NttPolynomial { coeffs: c, context: share(&self.context) })
    }

    /// In-place ring subtraction; on a mismatch `self` is left unchanged.
    pub fn sub_assign(&mut self, other: &Self) -> (r: Result<(), NttError>)
        requires
            old(self).wf(),
            other.wf(),
        ensures
            final(self).wf(),
            final(self).spec_context() == old(self).spec_context(),
            r is Err <==> !old(self).compatible(other),
            r is Err ==> r->Err_0 == NttError::ModulusMismatch && final(self).spec_coeffs()
                == old(self).spec_coeffs(),
            r is Ok ==> final(self).spec_coeffs() == sub_spec(
                old(self).spec_coeffs(),
                other.spec_coeffs(),
                old(self).spec_q(),
            ),
    {
        if !self.check_compatible(other) {
            return Err(NttError::ModulusMismatch);
        }
        self.coeffs = sub_vec(self.context.class(), &self.coeffs, &other.coeffs);
        Ok(())
    }

    /// Ring multiplication: the negacyclic product through the transform.
    pub fn mul(&self, other: &Self) -> (r: Result<Self, NttError>)
        requires
            self.wf(),
            other.wf(),
        ensures
            r is Err <==> !self.compatible(other),
            r is Err ==> r->Err_0 == NttError::ModulusMismatch,
            r is Ok ==> {
                &&& r->Ok_0.wf()
                &&& r->Ok_0.spec_context() == self.spec_context()
                &&& r->Ok_0.spec_coeffs() == ntt_convolution_spec(
                    self.spec_context(),
                    self.spec_coeffs(),
                    other.spec_coeffs(),
                )
                &&& r->Ok_0.spec_coeffs() == negacyclic_spec(
                    self.spec_coeffs(),
                    other.spec_coeffs(),
                    self.spec_q(),
                )
            },
    {
        self.convolve(other, false)
    }

    /// In-place ring multiplication; on a mismatch `self` is left unchanged.
    pub fn mul_assign(&mut self, other: &Self) -> (r: Result<(), NttError>)
        requires
            old(self).wf(),
            other.wf(),
        ensures
            final(self).wf(),
            final(self).spec_context() == old(self).spec_context(),
            r is Err <==> !old(self).compatible(other),
            r is Err ==> r->Err_0 == NttError::ModulusMismatch && final(self).spec_coeffs()
                == old(self).spec_coeffs(),
            r is Ok ==> final(self).spec_coeffs() == ntt_convolution_spec(
                old(self).spec_context(),
                old(self).spec_coeffs(),
                other.spec_coeffs(),
            ),
            r is Ok ==> final(self).spec_coeffs() == negacyclic_spec(
                old(self).spec_coeffs(),
                other.spec_coeffs(),
                old(self).spec_q(),
            ),
    {
        match self.convolve(other, false) {
            Ok(p) => {
                self.coeffs = p.coeffs;
                Ok(())
            },
            Err(e) => Err(e),
        }
    }

    /// Ring negation.
    pub fn neg(&self) -> (r: Self)
        requires
            self.wf(),
        ensures
            r.wf(),
            r.spec_context() == self.spec_context(),
            r.spec_coeffs() == neg_spec(self.spec_coeffs(), self.spec_q()),
    {
        proof {
            self.context.lemma_wf_facts();
        }
        let c = neg_vec(self.context.class(), &self.coeffs);
        NttPolynomial { coeffs: c, context: share(&self.context) }
    }
}

} // verus!
