//! Ring arithmetic on coefficient vectors over `Z_q[x]/(x^N + 1)`, and the
//! vector-level transform engine `PolyRing`.

use crate::congruence::{CongruenceClass, MODULUS_BOUND};
use crate::context::{is_pow2, is_reduced, lemma_convolution_agrees, NttContext, NttError};
use crate::math::{has_primitive_root, prime};
use rand::Rng;
use std::sync::Arc;
use vstd::arithmetic::div_mod::*;
use vstd::prelude::*;

verus! {

/// Coefficient-wise sum modulo `q`.
pub open spec fn add_spec(a: Seq<u64>, b: Seq<u64>, q: int) -> Seq<u64> {
    Seq::new(a.len(), |i: int| ((a[i] + b[i]) % q) as u64)
}

/// Coefficient-wise difference modulo `q`.
pub open spec fn sub_spec(a: Seq<u64>, b: Seq<u64>, q: int) -> Seq<u64> {
    Seq::new(a.len(), |i: int| ((a[i] - b[i]) % q) as u64)
}

/// Coefficient-wise negation modulo `q`.
pub open spec fn neg_spec(a: Seq<u64>, q: int) -> Seq<u64> {
    Seq::new(a.len(), |i: int| ((-a[i]) % q) as u64)
}

/// Coefficient-wise product modulo `q`.
pub open spec fn pointwise_spec(a: Seq<u64>, b: Seq<u64>, q: int) -> Seq<u64> {
    Seq::new(a.len(), |i: int| ((a[i] * b[i]) % q) as u64)
}

/// The all-zero vector of length `n`.
pub open spec fn zero_spec(n: nat) -> Seq<u64> {
    Seq::new(n, |i: int| 0u64)
}

/// The contribution of `a[k]` to output coefficient `i` of the negacyclic
/// product of length-`n` vectors: `a[k] b[i-k]` when `k <= i`, and
/// `-a[k] b[n+i-k]` when it wraps around past `x^n = -1`.
pub open spec fn nega_term(a: Seq<u64>, b: Seq<u64>, i: int, k: int) -> int {
    if k <= i {
        a[k] * b[i - k]
    } else {
        -(a[k] * b[a.len() + i - k])
    }
}

/// The sum of the first `j` contributions to output coefficient `i`.
pub open spec fn nega_partial(a: Seq<u64>, b: Seq<u64>, i: int, j: nat) -> int
    decreases j,
{
    if j == 0 {
        0
    } else {
        nega_partial(a, b, i, (j - 1) as nat) + nega_term(a, b, i, j - 1)
    }
}

/// The product of `a` and `b` in `Z_q[x]/(x^n + 1)`, `n = a.len()`.
pub open spec fn negacyclic_spec(a: Seq<u64>, b: Seq<u64>, q: int) -> Seq<u64> {
    Seq::new(a.len(), |i: int| (nega_partial(a, b, i, a.len()) % q) as u64)
}

/// Ring addition is commutative.
pub proof fn lemma_add_commutative(a: Seq<u64>, b: Seq<u64>, q: int)
    requires
        a.len() == b.len(),
    ensures
        add_spec(a, b, q) == add_spec(b, a, q),
{
    assert(add_spec(a, b, q) =~= add_spec(b, a, q));
}

/// Ring addition is associative.
pub proof fn lemma_add_associative(a: Seq<u64>, b: Seq<u64>, c: Seq<u64>, q: int)
    requires
        0 < q <= MODULUS_BOUND,
        a.len() == b.len(),
        b.len() == c.len(),
        is_reduced(a, q),
        is_reduced(b, q),
        is_reduced(c, q),
    ensures
        add_spec(add_spec(a, b, q), c, q) == add_spec(a, add_spec(b, c, q), q),
{
    assert forall|i: int| 0 <= i < a.len() implies #[trigger] add_spec(add_spec(a, b, q), c, q)[i]
        == add_spec(a, add_spec(b, c, q), q)[i] by {
        lemma_mod_bound(a[i] + b[i], q);
        lemma_mod_bound(b[i] + c[i], q);
        lemma_add_mod_noop(a[i] + b[i], c[i] as int, q);
        lemma_add_mod_noop(a[i] as int, b[i] + c[i], q);
        lemma_mod_twice(a[i] + b[i], q);
        lemma_mod_twice(b[i] + c[i], q);
        lemma_small_mod(c[i] as nat, q as nat);
        lemma_small_mod(a[i] as nat, q as nat);
    }
    assert(add_spec(add_spec(a, b, q), c, q) =~= add_spec(a, add_spec(b, c, q), q));
}

/// The zero vector is an additive identity on canonical residues.
pub proof fn lemma_add_zero(a: Seq<u64>, q: int)
    requires
        0 < q,
        is_reduced(a, q),
    ensures
        add_spec(a, zero_spec(a.len()), q) == a,
        add_spec(zero_spec(a.len()), a, q) == a,
{
    assert forall|i: int| 0 <= i < a.len() implies #[trigger] add_spec(a, zero_spec(a.len()), q)[i]
        == a[i] by {
        lemma_small_mod(a[i] as nat, q as nat);
    }
    assert forall|i: int| 0 <= i < a.len() implies #[trigger] add_spec(zero_spec(a.len()), a, q)[i]
        == a[i] by {
        lemma_small_mod(a[i] as nat, q as nat);
    }
    assert(add_spec(a, zero_spec(a.len()), q) =~= a);
    assert(add_spec(zero_spec(a.len()), a, q) =~= a);
}

/// Negating twice gives back a vector of canonical residues.
pub proof fn lemma_neg_involution(a: Seq<u64>, q: int)
    requires
        0 < q <= MODULUS_BOUND,
        is_reduced(a, q),
    ensures
        neg_spec(neg_spec(a, q), q) == a,
{
    assert forall|i: int| 0 <= i < a.len() implies #[trigger] neg_spec(neg_spec(a, q), q)[i] == a[i] by {
        let x = a[i] as int;
        if x == 0 {
            lemma_small_mod(0, q as nat);
        } else {
            lemma_fundamental_div_mod_converse_mod(-x, q, -1, q - x);
            lemma_fundamental_div_mod_converse_mod(-(q - x), q, -1, x);
        }
    }
    assert(neg_spec(neg_spec(a, q), q) =~= a);
}

/// Coefficient-wise sum.
pub(crate) fn add_vec(class: &CongruenceClass, a: &Vec<u64>, b: &Vec<u64>) -> (r: Vec<u64>)
    requires
        class.wf(),
        a@.len() == b@.len(),
        is_reduced(a@, class.spec_q()),
        is_reduced(b@, class.spec_q()),
    ensures
        r@ == add_spec(a@, b@, class.spec_q()),
        is_reduced(r@, class.spec_q()),
{
    let mut r: Vec<u64> = Vec::new();
    let mut i: usize = 0;
    while i < a.len()
        invariant
            class.wf(),
            a@.len() == b@.len(),
            is_reduced(a@, class.spec_q()),
            is_reduced(b@, class.spec_q()),
            i <= a@.len(),
            r@.len() == i,
            forall|j: int| 0 <= j < i ==> #[trigger] r@[j] == add_spec(a@, b@, class.spec_q())[j],
            is_reduced(r@, class.spec_q()),
        decreases a@.len() - i,
    {
        let x = class.modadd(a[i], b[i]);
        proof {
            lemma_mod_bound(a[i as int] + b[i as int], class.spec_q());
        }
        r.push(x);
        i = i + 1;
    }
    assert(r@ =~= add_spec(a@, b@, class.spec_q()));
    r
}

/// Coefficient-wise difference.
pub(crate) fn sub_vec(class: &CongruenceClass, a: &Vec<u64>, b: &Vec<u64>) -> (r: Vec<u64>)
    requires
        class.wf(),
        a@.len() == b@.len(),
        is_reduced(a@, class.spec_q()),
        is_reduced(b@, class.spec_q()),
    ensures
        r@ == sub_spec(a@, b@, class.spec_q()),
        is_reduced(r@, class.spec_q()),
{
    let mut r: Vec<u64> = Vec::new();
    let mut i: usize = 0;
    while i < a.len()
        invariant
            class.wf(),
            a@.len() == b@.len(),
            is_reduced(a@, class.spec_q()),
            is_reduced(b@, class.spec_q()),
            i <= a@.len(),
            r@.len() == i,
            forall|j: int| 0 <= j < i ==> #[trigger] r@[j] == sub_spec(a@, b@, class.spec_q())[j],
            is_reduced(r@, class.spec_q()),
        decreases a@.len() - i,
    {
        let x = class.modsub(a[i], b[i]);
        proof {
            lemma_mod_bound(a[i as int] - b[i as int], class.spec_q());
        }
        r.push(x);
        i = i + 1;
    }
    assert(r@ =~= sub_spec(a@, b@, class.spec_q()));
    r
}

/// Coefficient-wise negation.
pub(crate) fn neg_vec(class: &CongruenceClass, a: &Vec<u64>) -> (r: Vec<u64>)
    requires
        class.wf(),
        is_reduced(a@, class.spec_q()),
    ensures
        r@ == neg_spec(a@, class.spec_q()),
        is_reduced(r@, class.spec_q()),
{
    let mut r: Vec<u64> = Vec::new();
    let mut i: usize = 0;
    while i < a.len()
        invariant
            class.wf(),
            is_reduced(a@, class.spec_q()),
            i <= a@.len(),
            r@.len() == i,
            forall|j: int| 0 <= j < i ==> #[trigger] r@[j] == neg_spec(a@, class.spec_q())[j],
            is_reduced(r@, class.spec_q()),
        decreases a@.len() - i,
    {
        let x = class.modneg(a[i]);
        proof {
            lemma_mod_bound(-a[i as int], class.spec_q());
        }
        r.push(x);
        i = i + 1;
    }
    assert(r@ =~= neg_spec(a@, class.spec_q()));
    r
}

/// The schoolbook negacyclic product, `O(N^2)`.
pub(crate) fn naive_vec(class: &CongruenceClass, a: &Vec<u64>, b: &Vec<u64>) -> (r: Vec<u64>)
    requires
        class.wf(),
        a@.len() == b@.len(),
        is_reduced(a@, class.spec_q()),
        is_reduced(b@, class.spec_q()),
    ensures
        r@ == negacyclic_spec(a@, b@, class.spec_q()),
        is_reduced(r@, class.spec_q()),
{
    let n = a.len();
    let ghost q = class.spec_q();
    let mut r: Vec<u64> = Vec::new();
    let mut i: usize = 0;
    while i < n
        invariant
            class.wf(),
            q == class.spec_q(),
            n == a@.len(),
            a@.len() == b@.len(),
            is_reduced(a@, q),
            is_reduced(b@, q),
            i <= n,
            r@.len() == i,
            forall|j: int| 0 <= j < i ==> #[trigger] r@[j] == negacyclic_spec(a@, b@, q)[j],
            is_reduced(r@, q),
        decreases n - i,
    {
        let mut acc: u64 = 0;
        let mut j: usize = 0;
        proof {
            lemma_small_mod(0, q as nat);
        }
        while j < n
            invariant
                class.wf(),
                q == class.spec_q(),
                n == a@.len(),
                a@.len() == b@.len(),
                is_reduced(a@, q),
                is_reduced(b@, q),
                i < n,
                j <= n,
                acc < q,
                acc == nega_partial(a@, b@, i as int, j as nat) % q,
            decreases n - j,
        {
            let ghost before = nega_partial(a@, b@, i as int, j as nat);
            if j <= i {
                let p = class.modmul(a[j], b[i - j]);
                proof {
                    lemma_add_mod_noop(before, a[j as int] * b[i - j], q);
                    lemma_mod_twice(before, q);
                }
                acc = class.modadd(acc, p);
            } else {
                let p = class.modmul(a[j], b[n - (j - i)]);
                proof {
                    lemma_sub_mod_noop(before, a[j as int] * b[n + i - j], q);
                    lemma_mod_twice(before, q);
                }
                acc = class.modsub(acc, p);
            }
            proof {
                lemma_mod_bound(nega_partial(a@, b@, i as int, (j + 1) as nat), q);
            }
            j = j + 1;
        }
        r.push(acc);
        i = i + 1;
    }
    assert(r@ =~= negacyclic_spec(a@, b@, q));
    r
}

/// The negacyclic product through the transform: forward both operands,
/// multiply entry by entry, transform back.
pub open spec fn ntt_convolution_spec(ctx: NttContext, a: Seq<u64>, b: Seq<u64>) -> Seq<u64> {
    ctx.inverse_spec(
        pointwise_spec(ctx.forward_spec(a), ctx.forward_spec(b), ctx.spec_modulus()),
    )
}

/// The thread-local generator of the outside crate.
#[verifier::external_type_specification]
#[verifier::external_body]
pub struct ExThreadRng(rand::rngs::ThreadRng);

/// Relies on rand::rng: a handle to the thread-local generator.
#[verifier::external_body]
pub(crate) fn thread_rng() -> (r: rand::rngs::ThreadRng) {
    rand::rng()
}

/// Relies on rand::Rng::random_range: a value drawn from `[lo, hi)`.
#[verifier::external_body]
pub(crate) fn draw_in(g: &mut rand::rngs::ThreadRng, lo: u64, hi: u64) -> (r: u64)
    requires
        lo < hi,
    ensures
        lo <= r < hi,
{
    g.random_range(lo..hi)
}

/// `n` values drawn from `[1, q)`.
pub(crate) fn sample_vec(n: usize, q: u64) -> (r: Vec<u64>)
    requires
        2 <= q,
    ensures
        r@.len() == n,
        forall|i: int| 0 <= i < n ==> 1 <= #[trigger] r@[i] < q,
{
    let mut g = thread_rng();
    let mut r: Vec<u64> = Vec::new();
    let mut i: usize = 0;
    while i < n
        invariant
            2 <= q,
            i <= n,
            r@.len() == i,
            forall|j: int| 0 <= j < i ==> 1 <= #[trigger] r@[j] < q,
        decreases n - i,
    {
        r.push(draw_in(&mut g, 1, q));
        i = i + 1;
    }
    r
}

/// The transform engine over plain coefficient vectors of length `N`.
pub struct PolyRing {
    context: Arc<NttContext>,
}

impl PolyRing {
    /// The context the ring works in.
    pub closed spec fn spec_context(&self) -> NttContext {
        *self.context
    }

    /// The ring's context is well formed.
    pub open spec fn wf(&self) -> bool {
        self.spec_context().wf()
    }

    /// The modulus `q`.
    pub open spec fn spec_q(&self) -> int {
        self.spec_context().spec_modulus()
    }

    /// A vector the ring accepts: `N` canonical residues.
    pub open spec fn accepts(&self, a: Seq<u64>) -> bool {
        a.len() == self.spec_context().spec_degree() && is_reduced(a, self.spec_q())
    }

    /// The ring `Z_q[x]/(x^n + 1)`; fails as `NttContext::new` does.
    pub fn new(q: u64, n: usize) -> (r: Result<PolyRing, NttError>)
        ensures
            !is_pow2(n as nat) ==> r == Err::<PolyRing, NttError>(NttError::InvalidDegree),
            is_pow2(n as nat) && !(3 <= q < MODULUS_BOUND && (q - 1) % (2 * n as int) == 0 && prime(
                q as nat,
            )) ==> r == Err::<PolyRing, NttError>(NttError::InvalidModulus),
            is_pow2(n as nat) && 3 <= q < MODULUS_BOUND && (q - 1) % (2 * n as int) == 0 && prime(
                q as nat,
            ) && has_primitive_root(q as int) && q <= usize::MAX ==> r is Ok,
            r is Ok ==> {
                &&& r->Ok_0.wf()
                &&& r->Ok_0.spec_q() == q
                &&& r->Ok_0.spec_context().spec_degree() == n
            },
            r is Err ==> r->Err_0 == NttError::InvalidDegree || r->Err_0
                == NttError::InvalidModulus,
    {
        match NttContext::new(q, n) {
            Ok(context) => Ok(PolyRing { context }),
            Err(e) => Err(e),
        }
    }

    /// The context the ring works in.
    pub fn context(&self) -> (r: &Arc<NttContext>)
        ensures
            **r == self.spec_context(),
    {
        &self.context
    }

    /// The arithmetic engine for the ring's modulus.
    pub fn class(&self) -> (r: &CongruenceClass)
        requires
            self.wf(),
        ensures
            r.wf(),
            r.spec_q() == self.spec_q(),
    {
        self.context.class()
    }

    /// `N` coefficients drawn uniformly from `[1, q)`.
    pub fn sample_random(&self) -> (r: Vec<u64>)
        requires
            self.wf(),
        ensures
            self.accepts(r@),
            forall|i: int| 0 <= i < r@.len() ==> 1 <= #[trigger] r@[i],
    {
        proof {
            self.context.lemma_wf_facts();
        }
        sample_vec(self.context.degree(), self.context.modulus())
    }

    /// Coefficient-wise sum.
    pub fn add(&self, ax: &Vec<u64>, bx: &Vec<u64>) -> (r: Vec<u64>)
        requires
            self.wf(),
            self.accepts(ax@),
            self.accepts(bx@),
        ensures
            r@ == add_spec(ax@, bx@, self.spec_q()),
            self.accepts(r@),
    {
        proof {
            self.context.lemma_wf_facts();
        }
        add_vec(self.context.class(), ax, bx)
    }

    /// In-place coefficient-wise sum.
    pub fn add_eq(&self, ax: &mut Vec<u64>, bx: &Vec<u64>)
        requires
            self.wf(),
            self.accepts(old(ax)@),
            self.accepts(bx@),
        ensures
            final(ax)@ == add_spec(old(ax)@, bx@, self.spec_q()),
            self.accepts(final(ax)@),
    {
        *ax = self.add(ax, bx);
    }

    /// Coefficient-wise difference.
    pub fn sub(&self, ax: &Vec<u64>, bx: &Vec<u64>) -> (r: Vec<u64>)
        requires
            self.wf(),
            self.accepts(ax@),
            self.accepts(bx@),
        ensures
            r@ == sub_spec(ax@, bx@, self.spec_q()),
            self.accepts(r@),
    {
        proof {
            self.context.lemma_wf_facts();
        }
        sub_vec(self.context.class(), ax, bx)
    }

    /// In-place coefficient-wise difference.
    pub fn sub_eq(&self, ax: &mut Vec<u64>, bx: &Vec<u64>)
        requires
            self.wf(),
            self.accepts(old(ax)@),
            self.accepts(bx@),
        ensures
            final(ax)@ == sub_spec(old(ax)@, bx@, self.spec_q()),
            self.accepts(final(ax)@),
    {
        *ax = self.sub(ax, bx);
    }

    /// Coefficient-wise negation.
    pub fn neg(&self, ax: &Vec<u64>) -> (r: Vec<u64>)
        requires
            self.wf(),
            self.accepts(ax@),
        ensures
            r@ == neg_spec(ax@, self.spec_q()),
            self.accepts(r@),
    {
        proof {
            self.context.lemma_wf_facts();
        }
        neg_vec(self.context.class(), ax)
    }

    /// In-place coefficient-wise negation.
    pub fn neg_eq(&self, ax: &mut Vec<u64>)
        requires
            self.wf(),
            self.accepts(old(ax)@),
        ensures
            final(ax)@ == neg_spec(old(ax)@, self.spec_q()),
            self.accepts(final(ax)@),
    {
        *ax = self.neg(ax);
    }

    /// Coefficient-wise product (the product of two transformed vectors).
    pub fn mul(&self, ax: &Vec<u64>, bx: &Vec<u64>) -> (r: Vec<u64>)
        requires
            self.wf(),
            self.accepts(ax@),
            self.accepts(bx@),
        ensures
            r@ == pointwise_spec(ax@, bx@, self.spec_q()),
            self.accepts(r@),
    {
        proof {
            self.context.lemma_wf_facts();
        }
        let r = self.context.pointwise(ax, bx);
        proof {
            assert forall|i: int| 0 <= i < r@.len() implies #[trigger] r@[i] < self.spec_q() by {
                lemma_mod_bound(ax@[i] * bx@[i], self.spec_q());
            }
        }
        assert(r@ =~= pointwise_spec(ax@, bx@, self.spec_q()));
        r
    }

    /// In-place coefficient-wise product.
    pub fn mul_eq(&self, ax: &mut Vec<u64>, bx: &Vec<u64>)
        requires
            self.wf(),
            self.accepts(old(ax)@),
            self.accepts(bx@),
        ensures
            final(ax)@ == pointwise_spec(old(ax)@, bx@, self.spec_q()),
            self.accepts(final(ax)@),
    {
        *ax = self.mul(ax, bx);
    }

    /// The schoolbook negacyclic product, the reference for the fast paths.
    pub fn naive_negacyclic_convolution(&self, ax: &Vec<u64>, bx: &Vec<u64>) -> (r: Vec<u64>)
        requires
            self.wf(),
            self.accepts(ax@),
            self.accepts(bx@),
        ensures
            r@ == negacyclic_spec(ax@, bx@, self.spec_q()),
            self.accepts(r@),
    {
        proof {
            self.context.lemma_wf_facts();
        }
        naive_vec(self.context.class(), ax, bx)
    }

    /// Forward transform in place.
    pub fn ntt_forward(&self, ax: &mut Vec<u64>)
        requires
            self.wf(),
            self.accepts(old(ax)@),
        ensures
            final(ax)@ == self.spec_context().forward_spec(old(ax)@),
            self.accepts(final(ax)@),
    {
        self.context.forward(ax, false);
    }

    /// Forward transform in place with Shoup multiplication; the same
    /// result as `ntt_forward`.
    pub fn ntt_forward_shoup(&self, ax: &mut Vec<u64>)
        requires
            self.wf(),
            self.accepts(old(ax)@),
        ensures
            final(ax)@ == self.spec_context().forward_spec(old(ax)@),
            self.accepts(final(ax)@),
    {
        self.context.forward(ax, true);
    }

    /// Inverse transform in place, normalization included.
    pub fn ntt_inverse(&self, ax: &mut Vec<u64>)
        requires
            self.wf(),
            self.accepts(old(ax)@),
        ensures
            final(ax)@ == self.spec_context().inverse_spec(old(ax)@),
            self.accepts(final(ax)@),
    {
        self.context.inverse(ax, false);
    }

    /// Inverse transform in place with Shoup multiplication; the same result
    /// as `ntt_inverse`.
    pub fn ntt_inverse_shoup(&self, ax: &mut Vec<u64>)
        requires
            self.wf(),
            self.accepts(old(ax)@),
        ensures
            final(ax)@ == self.spec_context().inverse_spec(old(ax)@),
            self.accepts(final(ax)@),
    {
        self.context.inverse(ax, true);
    }

    /// The negacyclic product through the transform.
    pub fn ntt_negacyclic_convolution(&self, ax: &Vec<u64>, bx: &Vec<u64>) -> (r: Vec<u64>)
        requires
            self.wf(),
            self.accepts(ax@),
            self.accepts(bx@),
        ensures
            r@ == ntt_convolution_spec(self.spec_context(), ax@, bx@),
            r@ == negacyclic_spec(ax@, bx@, self.spec_q()),
            self.accepts(r@),
    {
        self.convolve(ax, bx, false)
    }

    /// The negacyclic product through the Shoup transforms; the same result
    /// as `ntt_negacyclic_convolution`.
    pub fn ntt_negacyclic_convolution_shoup(&self, ax: &Vec<u64>, bx: &Vec<u64>) -> (r: Vec<u64>)
        requires
            self.wf(),
            self.accepts(ax@),
            self.accepts(bx@),
        ensures
            r@ == ntt_convolution_spec(self.spec_context(), ax@, bx@),
            r@ == negacyclic_spec(ax@, bx@, self.spec_q()),
            self.accepts(r@),
    {
        self.convolve(ax, bx, true)
    }

    fn convolve(&self, ax: &Vec<u64>, bx: &Vec<u64>, shoup: bool) -> (r: Vec<u64>)
        requires
            self.wf(),
            self.accepts(ax@),
            self.accepts(bx@),
        ensures
            r@ == ntt_convolution_spec(self.spec_context(), ax@, bx@),
            r@ == negacyclic_spec(ax@, bx@, self.spec_q()),
            self.accepts(r@),
    {
        let mut a = ax.clone();
        let mut b = bx.clone();
        assert(a@ =~= ax@);
        assert(b@ =~= bx@);
        self.context.forward(&mut a, shoup);
        self.context.forward(&mut b, shoup);
        let mut c = self.mul(&a, &b);
        self.context.inverse(&mut c, shoup);
        proof {
            lemma_convolution_agrees(&*self.context, ax@, bx@);
        }
        c
    }
}

} // verus!
