//! The per-(q, N) transform context: twiddle tables in bit-reversed order,
//! their Shoup companions, and the normalization factor `N^(-1) mod q`.

use crate::congruence::{lemma_power_adds, lemma_power_multiplies, lemma_power_mod, power, shoup_of, CongruenceClass, MODULUS_BOUND};
use crate::evaluation::{
    as_ints, eval_upto, lemma_eval_coeffs_mod, lemma_eval_point_mod, lemma_eval_prefix,
    lemma_eval_split, lemma_negacyclic_eval,
};
use crate::polymath::{nega_partial, negacyclic_spec, ntt_convolution_spec, pointwise_spec};
use crate::math::{check_prime, find_generator, has_primitive_root, is_least_primitive_root, prime};
use std::sync::Arc;
use vstd::arithmetic::div_mod::*;
use vstd::arithmetic::mul::*;
use vstd::arithmetic::power2::*;
use vstd::prelude::*;

verus! {

/// Why a context or a polynomial could not be built, or two operands could
/// not be combined.
#[derive(Debug, Clone, Copy, PartialEq, Eq, Structural)]
pub enum NttError {
    /// The modulus is out of `[3, 2^63)`, not prime, not `1 mod 2N`, or
    /// yields no generator.
    InvalidModulus,
    /// The degree is not a power of two.
    InvalidDegree,
    /// The operands belong to contexts with different moduli.
    ModulusMismatch,
    /// A coefficient vector has the wrong length or a value outside `[0, q)`.
    PreconditionViolation,
}

/// The lowest `len` bits of `x`, in reverse order.
pub open spec fn bit_rev(x: nat, len: nat) -> nat
    decreases len,
{
    if len == 0 {
        0
    } else {
        (x % 2) * pow2((len - 1) as nat) + bit_rev(x / 2, (len - 1) as nat)
    }
}

/// `n` is a power of two.
pub open spec fn is_pow2(n: nat) -> bool {
    exists|l: nat| n == pow2(l)
}

proof fn lemma_bit_rev_bound(x: nat, len: nat)
    ensures
        bit_rev(x, len) < pow2(len),
    decreases len,
{
    lemma_pow2_pos(len);
    if len > 0 {
        lemma_bit_rev_bound(x / 2, (len - 1) as nat);
        lemma_pow2_unfold(len);
        assert((x % 2) * pow2((len - 1) as nat) <= pow2((len - 1) as nat)) by (nonlinear_arith)
            requires
                x % 2 <= 1,
        ;
    }
}

/// Reverses the lowest `bit_length` bits of `number`.
pub fn bit_reverse(number: usize, bit_length: usize) -> (r: usize)
    requires
        pow2(bit_length as nat) <= usize::MAX + 1,
    ensures
        r == bit_rev(number as nat, bit_length as nat),
{
    let mut reversed: usize = 0;
    let mut x: usize = number;
    let mut i: usize = 0;
    proof {
        lemma_pow2_pos(bit_length as nat);
        lemma2_to64();
    }
    while i < bit_length
        invariant
            i <= bit_length,
            pow2(bit_length as nat) <= usize::MAX + 1,
            reversed < pow2(i as nat),
            bit_rev(number as nat, bit_length as nat) == reversed * pow2((bit_length - i) as nat)
                + bit_rev(x as nat, (bit_length - i) as nat),
        decreases bit_length - i,
    {
        let ghost m = (bit_length - i) as nat;
        proof {
            lemma_pow2_unfold(m);
            lemma_pow2_unfold((i + 1) as nat);
            if i + 1 < bit_length {
                lemma_pow2_strictly_increases((i + 1) as nat, bit_length as nat);
            }
            assert(reversed * pow2(m) == 2 * reversed * pow2((m - 1) as nat)) by (nonlinear_arith)
                requires
                    pow2(m) == 2 * pow2((m - 1) as nat),
            ;
            assert(reversed * pow2(m) + (x % 2) * pow2((m - 1) as nat) == (2 * reversed + x % 2)
                * pow2((m - 1) as nat)) by (nonlinear_arith)
                requires
                    reversed * pow2(m) == 2 * reversed * pow2((m - 1) as nat),
            ;
        }
        reversed = reversed * 2 + x % 2;
        x = x / 2;
        i = i + 1;
    }
    proof {
        lemma2_to64();
        assert(i == bit_length);
        assert(bit_rev(x as nat, 0) == 0);
        assert(reversed * pow2(0) == reversed);
    }
    reversed
}

/// No power of two lies strictly between `pow2(l - 1)` and `pow2(l)`.
proof fn lemma_not_pow2_between(x: nat, l: nat)
    requires
        x < pow2(l),
        l == 0 || pow2((l - 1) as nat) < x,
    ensures
        !is_pow2(x),
{
    assert forall|k: nat| x != pow2(k) by {
        lemma_pow2_pos(k);
        if l == 0 {
            lemma2_to64();
            if k > 0 {
                lemma_pow2_strictly_increases(0, k);
            }
        } else if k < l {
            if k < l - 1 {
                lemma_pow2_strictly_increases(k, (l - 1) as nat);
            }
        } else if k > l {
            lemma_pow2_strictly_increases(l, k);
        }
    }
}

/// Powers with a common exponent multiply base by base.
proof fn lemma_power_distributes(a: int, b: int, k: nat)
    ensures
        power(a, k) * power(b, k) == power(a * b, k),
    decreases k,
{
    if k > 0 {
        lemma_power_distributes(a, b, (k - 1) as nat);
        let pa = power(a, (k - 1) as nat);
        let pb = power(b, (k - 1) as nat);
        assert((a * pa) * (b * pb) == (a * b) * (pa * pb)) by (nonlinear_arith);
    }
}

/// Every power of one is one.
proof fn lemma_power_one(k: nat)
    ensures
        power(1, k) == 1,
    decreases k,
{
    if k > 0 {
        lemma_power_one((k - 1) as nat);
    }
}

/// Shared, read-only precomputation for transforms of degree `N` modulo `q`.
#[derive(Debug, Clone)]
pub struct NttContext {
    class: CongruenceClass,
    degree: usize,
    log_degree: usize,
    generator: u64,
    inv_n: u64,
    inv_n_shoup: u64,
    tf: Vec<u64>,
    tf_shoup: Vec<u64>,
    itf: Vec<u64>,
    itf_shoup: Vec<u64>,
}

impl NttContext {
    /// The modulus `q`.
    pub closed spec fn spec_modulus(&self) -> int {
        self.class.spec_q()
    }

    /// The degree `N`.
    pub closed spec fn spec_degree(&self) -> nat {
        self.degree as nat
    }

    /// The primitive `2N`-th root of unity the tables are built from.
    pub closed spec fn spec_generator(&self) -> int {
        self.generator as int
    }

    /// The forward twiddle table.
    pub closed spec fn spec_tf(&self) -> Seq<u64> {
        self.tf@
    }

    /// The inverse twiddle table.
    pub closed spec fn spec_itf(&self) -> Seq<u64> {
        self.itf@
    }

    /// `L` with `N = 2^L`.
    pub closed spec fn spec_log_degree(&self) -> nat {
        self.log_degree as nat
    }

    /// The arithmetic engine of the context.
    pub closed spec fn spec_class(&self) -> CongruenceClass {
        self.class
    }

    /// The context's invariant: `q` prime, `q = 1 (mod 2N)`, `N = 2^L`, the
    /// generator `g` has `g^N = -1 (mod q)` and an inverse `g'`, `tf[i] =
    /// g^rev(i)` and `itf[i] = g'^rev(i)` with `rev` the `L`-bit reversal,
    /// each with its Shoup companion, and `inv_n * N = 1 (mod q)`.
    pub closed spec fn wf(&self) -> bool {
        let q = self.class.spec_q();
        let n = self.degree as int;
        let ginv = power(self.generator as int, (q - 2) as nat) % q;
        &&& self.class.wf()
        &&& prime(q as nat)
        &&& 1 <= n
        &&& n == pow2(self.log_degree as nat)
        &&& pow2(self.log_degree as nat) <= usize::MAX
        &&& 2 * n <= q - 1
        &&& (q - 1) % (2 * n) == 0
        &&& self.generator < q
        &&& power(self.generator as int, n as nat) % q == q - 1
        &&& (self.generator * ginv) % q == 1
        &&& self.tf@.len() == n
        &&& self.itf@.len() == n
        &&& self.tf_shoup@.len() == n
        &&& self.itf_shoup@.len() == n
        &&& forall|i: int|
            0 <= i < n ==> #[trigger] self.tf@[i] == power(
                self.generator as int,
                bit_rev(i as nat, self.log_degree as nat),
            ) % q
        &&& forall|i: int|
            0 <= i < n ==> #[trigger] self.itf@[i] == power(
                ginv,
                bit_rev(i as nat, self.log_degree as nat),
            ) % q
        &&& forall|i: int|
            0 <= i < n ==> #[trigger] self.tf_shoup@[i] == shoup_of(self.tf@[i] as int, q)
        &&& forall|i: int|
            0 <= i < n ==> #[trigger] self.itf_shoup@[i] == shoup_of(self.itf@[i] as int, q)
        &&& self.inv_n < q
        &&& (self.inv_n * n) % q == 1
        &&& self.inv_n_shoup == shoup_of(self.inv_n as int, q)
    }

    /// Builds the context for modulus `q` and degree `degree`. The degree
    /// must be a power of two; the modulus must be a prime in `[3, 2^63)`
    /// with `q = 1 (mod 2 * degree)`.
    pub fn new(q: u64, degree: usize) -> (r: Result<Arc<NttContext>, NttError>)
        ensures
            !is_pow2(degree as nat) ==> r == Err::<Arc<NttContext>, NttError>(
                NttError::InvalidDegree,
            ),
            is_pow2(degree as nat) && !(3 <= q < MODULUS_BOUND && (q - 1) % (2 * degree as int) == 0
                && prime(q as nat)) ==> r == Err::<Arc<NttContext>, NttError>(
                NttError::InvalidModulus,
            ),
            is_pow2(degree as nat) && 3 <= q < MODULUS_BOUND && (q - 1) % (2 * degree as int) == 0
                && prime(q as nat) && has_primitive_root(q as int) && q <= usize::MAX ==> r is Ok,
            r is Err ==> r->Err_0 == NttError::InvalidDegree || r->Err_0
                == NttError::InvalidModulus,
            r is Ok ==> {
                &&& r->Ok_0.wf()
                &&& r->Ok_0.spec_modulus() == q
                &&& r->Ok_0.spec_degree() == degree
                &&& exists|g0: int|
                    is_least_primitive_root(g0, q as int) && r->Ok_0.spec_generator() == power(
                        g0,
                        ((q - 1) / (2 * degree as int)) as nat,
                    ) % (q as int)
            },
    {
        // degree = 2^log_degree
        let mut p: usize = 1;
        let mut log_degree: usize = 0;
        proof {
            lemma2_to64();
        }
        while p < degree
            invariant
                p == pow2(log_degree as nat),
                log_degree == 0 || pow2((log_degree - 1) as nat) < degree,
                log_degree < 64,
            decreases 64 - log_degree,
        {
            if p > usize::MAX / 2 {
                proof {
                    lemma_pow2_unfold((log_degree + 1) as nat);
                    lemma_not_pow2_between(degree as nat, (log_degree + 1) as nat);
                }
                return Err(NttError::InvalidDegree);
            }
            proof {
                lemma_pow2_unfold((log_degree + 1) as nat);
                lemma_pow2_pos(log_degree as nat);
                if log_degree >= 63 {
                    if log_degree > 63 {
                        lemma_pow2_strictly_increases(63, log_degree as nat);
                    }
                    lemma2_to64_rest();
                    assert(false);
                }
            }
            p = p * 2;
            log_degree = log_degree + 1;
        }
        if p != degree {
            proof {
                lemma_not_pow2_between(degree as nat, log_degree as nat);
            }
            return Err(NttError::InvalidDegree);
        }
        assert(is_pow2(degree as nat));
        if q < 3 || q >= MODULUS_BOUND {
            return Err(NttError::InvalidModulus);
        }
        let n64: u64 = degree as u64;
        if n64 > (q - 1) / 2 {
            proof {
                lemma_small_mod((q - 1) as nat, (2 * degree) as nat);
            }
            return Err(NttError::InvalidModulus);
        }
        let m: u64 = n64 * 2;
        if (q - 1) % m != 0 {
            return Err(NttError::InvalidModulus);
        }
        if !check_prime(q) {
            return Err(NttError::InvalidModulus);
        }
        let g = match find_generator(q, degree) {
            Some(g) => g,
            None => {
                return Err(NttError::InvalidModulus);
            },
        };
        let class = CongruenceClass::new(q);
        let ginv = class.modinv(g);
        // N divides q - 1, so N (q - (q-1)/N) = 1 (mod q)
        let inv_n = q - (q - 1) / n64;
        proof {
            let qi = q as int;
            let ni = n64 as int;
            let j = (q - 1) as int / (2 * ni);
            lemma_fundamental_div_mod((q - 1) as int, 2 * ni);
            assert((q - 1) as int == ni * (2 * j)) by (nonlinear_arith)
                requires
                    (q - 1) as int == (2 * ni) * j + 0,
            ;
            lemma_fundamental_div_mod_converse_div((q - 1) as int, ni, 2 * j, 0);
            assert(2 * j >= 1) by (nonlinear_arith)
                requires
                    (q - 1) as int == ni * (2 * j),
                    q >= 3,
                    ni >= 1,
            ;
            assert(inv_n as int == qi - 2 * j);
            let iv = inv_n as int;
            assert(iv * ni == (ni - 1) * qi + 1) by (nonlinear_arith)
                requires
                    iv == qi - 2 * j,
                    qi - 1 == ni * (2 * j),
            ;
            lemma_mod_from_parts(inv_n * ni, qi, ni - 1, 1);
            // g g^(q-2) = g^(q-1) = (g^(2N))^j = 1
            let pg = power(g as int, (qi - 2) as nat);
            lemma_mul_mod_noop_right(g as int, pg, qi);
            assert(power(g as int, (qi - 1) as nat) == g * pg);
            assert(qi - 1 == (2 * ni) * j) by (nonlinear_arith)
                requires
                    qi - 1 == ni * (2 * j),
            ;
            assert(j >= 0) by {
                lemma_div_pos_is_pos((q - 1) as int, 2 * ni);
            }
            assert(((qi - 1) as nat) == (2 * degree as nat) * (j as nat));
            lemma_power_multiplies(g as int, 2 * degree as nat, j as nat);
            lemma_power_mod(power(g as int, 2 * degree as nat), j as nat, qi);
            lemma_power_one(j as nat);
            lemma_small_mod(1, qi as nat);
        }
        let inv_n_shoup = class.precompute_shoup(inv_n);
        let tf = compute_twiddle_factors(&class, g, false, degree, log_degree);
        let itf = compute_twiddle_factors(&class, g, true, degree, log_degree);
        let tf_shoup = shoup_table(&class, &tf);
        let itf_shoup = shoup_table(&class, &itf);
        let ctx = NttContext {
            class,
            degree,
            log_degree,
            generator: g,
            inv_n,
            inv_n_shoup,
            tf,
            tf_shoup,
            itf,
            itf_shoup,
        };
        Ok(Arc::new(ctx))
    }
    /// The arithmetic engine for the context's modulus.
    pub fn class(&self) -> (r: &CongruenceClass)
        requires
            self.wf(),
        ensures
            *r == self.spec_class(),
            r.wf(),
            r.spec_q() == self.spec_modulus(),
    {
        &self.class
    }

    /// The forward twiddle table, in bit-reversed order.
    pub fn tf(&self) -> (r: &Vec<u64>)
        ensures
            r@ == self.spec_tf(),
    {
        &self.tf
    }

    /// The inverse twiddle table, in bit-reversed order.
    pub fn itf(&self) -> (r: &Vec<u64>)
        ensures
            r@ == self.spec_itf(),
    {
        &self.itf
    }

    /// The modulus `q`.
    pub fn modulus(&self) -> (r: u64)
        ensures
            r == self.spec_modulus(),
    {
        self.class.q()
    }

    /// The degree `N`.
    pub fn degree(&self) -> (r: usize)
        ensures
            r == self.spec_degree(),
    {
        self.degree
    }

    /// The primitive `2N`-th root of unity behind the twiddle tables.
    pub fn generator(&self) -> (r: u64)
        ensures
            r == self.spec_generator(),
    {
        self.generator
    }

    /// Facts of a well-formed context that its users rely on.
    pub proof fn lemma_wf_facts(&self)
        requires
            self.wf(),
        ensures
            self.spec_class().wf(),
            self.spec_class().spec_q() == self.spec_modulus(),
            3 <= self.spec_modulus() < MODULUS_BOUND,
            1 <= self.spec_degree(),
            2 * self.spec_degree() <= self.spec_modulus() - 1,
            is_pow2(self.spec_degree()),
            self.spec_tf().len() == self.spec_degree(),
            self.spec_itf().len() == self.spec_degree(),
            forall|i: int|
                0 <= i < self.spec_degree() ==> #[trigger] self.spec_tf()[i] < self.spec_modulus(),
            forall|i: int|
                0 <= i < self.spec_degree() ==> #[trigger] self.spec_itf()[i] < self.spec_modulus(),
    {
        let q = self.spec_modulus();
        assert forall|i: int| 0 <= i < self.spec_degree() implies #[trigger] self.spec_tf()[i] < q by {
            lemma_mod_bound(power(self.generator as int, bit_rev(i as nat, self.log_degree as nat)), q);
        }
        assert forall|i: int| 0 <= i < self.spec_degree() implies #[trigger] self.spec_itf()[i] < q by {
            lemma_mod_bound(
                power(
                    power(self.generator as int, (q - 2) as nat) % q,
                    bit_rev(i as nat, self.log_degree as nat),
                ),
                q,
            );
        }
    }
}

/// Each forward twiddle factor times the inverse one at the same index is
/// one modulo `q`.
pub proof fn lemma_twiddle_inverse(ctx: &NttContext, i: int)
    requires
        ctx.wf(),
        0 <= i < ctx.spec_degree(),
    ensures
        (ctx.spec_tf()[i] * ctx.spec_itf()[i]) % ctx.spec_modulus() == 1,
{
    let q = ctx.spec_modulus();
    let g = ctx.spec_generator();
    let ginv = power(g, (q - 2) as nat) % q;
    let k = bit_rev(i as nat, ctx.log_degree as nat);
    let a = power(g, k);
    let b = power(ginv, k);
    lemma_mul_mod_noop(a, b, q);
    lemma_power_distributes(g, ginv, k);
    lemma_power_mod(g * ginv, k, q);
    lemma_power_one(k);
    lemma_small_mod(1, q as nat);
}

/// The generator is a primitive `2N`-th root of unity: `g^N = q - 1` and
/// `g^(2N) = 1` modulo `q`.
pub proof fn lemma_generator_order(ctx: &NttContext)
    requires
        ctx.wf(),
    ensures
        power(ctx.spec_generator(), ctx.spec_degree()) % ctx.spec_modulus() == ctx.spec_modulus() - 1,
        power(ctx.spec_generator(), 2 * ctx.spec_degree()) % ctx.spec_modulus() == 1,
{
    let q = ctx.spec_modulus();
    let g = ctx.spec_generator();
    let n = ctx.spec_degree();
    lemma_power_adds(g, n, n);
    assert(n + n == 2 * n);
    lemma_mul_mod_noop(power(g, n), power(g, n), q);
    assert((q - 1) * (q - 1) == (q - 2) * q + 1) by (nonlinear_arith);
    lemma_mod_from_parts((q - 1) * (q - 1), q, q - 2, 1);
}

/// The twiddle tables: `tf[i] = g^rev(i)` and `itf[i] = h^rev(i)` modulo `q`,
/// with `rev` the reversal of the lowest `L` bits, `N = 2^L`, and
/// `h = g^(q-2) mod q` the inverse of `g`.
pub proof fn lemma_twiddle_tables(ctx: &NttContext, i: int)
    requires
        ctx.wf(),
        0 <= i < ctx.spec_degree(),
    ensures
        pow2(ctx.spec_log_degree()) == ctx.spec_degree(),
        ctx.spec_generator() < ctx.spec_modulus(),
        (ctx.spec_generator() * (power(ctx.spec_generator(), (ctx.spec_modulus() - 2) as nat)
            % ctx.spec_modulus())) % ctx.spec_modulus() == 1,
        ctx.spec_tf()[i] == power(ctx.spec_generator(), bit_rev(i as nat, ctx.spec_log_degree()))
            % ctx.spec_modulus(),
        ctx.spec_itf()[i] == power(
            power(ctx.spec_generator(), (ctx.spec_modulus() - 2) as nat) % ctx.spec_modulus(),
            bit_rev(i as nat, ctx.spec_log_degree()),
        ) % ctx.spec_modulus(),
{
}

/// `x = c * q + r` with `0 <= r < q` has remainder `r`.
proof fn lemma_mod_from_parts(x: int, q: int, c: int, r: int)
    requires
        0 < q,
        0 <= r < q,
        x == c * q + r,
    ensures
        x % q == r,
{
    lemma_fundamental_div_mod_converse_mod(x, q, c, r);
}

/// Every entry of `s` is a canonical residue modulo `q`.
pub open spec fn is_reduced(s: Seq<u64>, q: int) -> bool {
    forall|k: int| 0 <= k < s.len() ==> #[trigger] s[k] < q
}

/// `i * 2t + d` with `0 <= d < 2t` lies in group `i` at offset `d`.
proof fn lemma_group(i: int, t: int, d: int)
    requires
        0 <= i,
        0 < t,
        0 <= d < 2 * t,
    ensures
        (i * (2 * t) + d) / (2 * t) == i,
        (i * (2 * t) + d) % (2 * t) == d,
{
    lemma_fundamental_div_mod_converse(i * (2 * t) + d, 2 * t, i, d);
}

impl NttContext {
    /// One level of the forward (Cooley-Tukey) butterfly network with `n`
    /// groups of half-size `t`: in group `i`, with `s = tf[n + i]`, each pair
    /// `(u, w)` at offsets `j` and `j + t` becomes `(u + w s, u - w s)`.
    spec fn fwd_level(&self, a: Seq<u64>, n: nat, t: nat) -> Seq<u64> {
        let q = self.class.spec_q();
        Seq::new(
            a.len(),
            |k: int|
                {
                    let i = k / (2 * t as int);
                    let s = self.tf@[n + i] as int;
                    if k % (2 * t as int) < t {
                        ((a[k] + (a[k + t] * s) % q) % q) as u64
                    } else {
                        ((a[k - t] - (a[k] * s) % q) % q) as u64
                    }
                },
        )
    }

    /// The forward levels from level `l` (with `2^l` groups) to the last.
    spec fn fwd_from(&self, a: Seq<u64>, l: nat) -> Seq<u64>
        decreases self.log_degree - l,
    {
        if l >= self.log_degree {
            a
        } else {
            self.fwd_from(
                self.fwd_level(a, pow2(l), pow2((self.log_degree - l - 1) as nat)),
                l + 1,
            )
        }
    }

    /// The forward negacyclic transform of `a`, output in bit-reversed order.
    pub closed spec fn forward_spec(&self, a: Seq<u64>) -> Seq<u64> {
        self.fwd_from(a, 0)
    }

    /// One level of the inverse (Gentleman-Sande) butterfly network with `h`
    /// groups of half-size `t`: in group `i`, with `s = itf[h + i]`, each pair
    /// `(u, w)` becomes `(u + w, (u - w) s)`.
    spec fn inv_level(&self, a: Seq<u64>, h: nat, t: nat) -> Seq<u64> {
        let q = self.class.spec_q();
        Seq::new(
            a.len(),
            |k: int|
                {
                    let i = k / (2 * t as int);
                    let s = self.itf@[h + i] as int;
                    if k % (2 * t as int) < t {
                        ((a[k] + a[k + t]) % q) as u64
                    } else {
                        ((((a[k - t] - a[k]) % q) * s) % q) as u64
                    }
                },
        )
    }

    /// The inverse levels from level `l` (groups of half-size `2^l`) to the
    /// last.
    spec fn inv_from(&self, a: Seq<u64>, l: nat) -> Seq<u64>
        decreases self.log_degree - l,
    {
        if l >= self.log_degree {
            a
        } else {
            self.inv_from(
                self.inv_level(a, pow2((self.log_degree - l - 1) as nat), pow2(l)),
                l + 1,
            )
        }
    }

    /// The inverse negacyclic transform of `a`: the butterfly levels, then
    /// every entry times `N^(-1)`.
    pub closed spec fn inverse_spec(&self, a: Seq<u64>) -> Seq<u64> {
        let b = self.inv_from(a, 0);
        Seq::new(b.len(), |k: int| ((b[k] * self.inv_n) % self.class.spec_q()) as u64)
    }

    /// One forward level, in place.
    fn forward_level(&self, a: &mut Vec<u64>, n: usize, t: usize, shoup: bool)
        requires
            self.wf(),
            old(a)@.len() == self.degree,
            is_reduced(old(a)@, self.spec_modulus()),
            1 <= n,
            1 <= t,
            n * (2 * t) == self.degree,
        ensures
            final(a)@ == self.fwd_level(old(a)@, n as nat, t as nat),
            is_reduced(final(a)@, self.spec_modulus()),
    {
        proof {
            self.lemma_wf_facts();
        }
        let ghost orig = a@;
        let ghost lvl = self.fwd_level(orig, n as nat, t as nat);
        let ghost q = self.spec_modulus();
        let mut i: usize = 0;
        while i < n
            invariant
                self.wf(),
                3 <= q < MODULUS_BOUND,
                q == self.spec_modulus(),
                self.class.wf(),
                self.class.spec_q() == q,
                self.tf@.len() == self.degree,
                self.tf_shoup@.len() == self.degree,
                forall|k: int| 0 <= k < self.degree ==> #[trigger] self.tf@[k] < q,
                1 <= n,
                1 <= t,
                n * (2 * t) == self.degree,
                orig.len() == self.degree,
                is_reduced(orig, q),
                lvl == self.fwd_level(orig, n as nat, t as nat),
                i <= n,
                a@.len() == self.degree,
                forall|k: int|
                    0 <= k < self.degree ==> #[trigger] a@[k] == if k < i * (2 * t) {
                        lvl[k]
                    } else {
                        orig[k]
                    },
            decreases n - i,
        {
            proof {
                lemma_mul_strict_inequality(i as int, n as int, (2 * t) as int);
                lemma_mul_is_distributive_add_other_way((2 * t) as int, i as int, 1);
                lemma_mul_inequality((i + 1) as int, n as int, (2 * t) as int);
                assert(n * (2 * t) >= 2 * n) by (nonlinear_arith)
                    requires
                        1 <= t,
                        1 <= n,
                ;
            }
            let j1: usize = i * (2 * t);
            let s = self.tf[n + i];
            let s_shoup = self.tf_shoup[n + i];
            let mut j: usize = j1;
            while j < j1 + t
                invariant
                    self.wf(),
                    3 <= q < MODULUS_BOUND,
                    q == self.spec_modulus(),
                    self.class.wf(),
                    self.class.spec_q() == q,
                    1 <= t,
                    i < n,
                    n * (2 * t) == self.degree,
                    j1 == i * (2 * t),
                    j1 + 2 * t <= self.degree,
                    s == self.tf@[n + i],
                    s < q,
                    s_shoup == shoup_of(s as int, q),
                    orig.len() == self.degree,
                    is_reduced(orig, q),
                    lvl == self.fwd_level(orig, n as nat, t as nat),
                    j1 <= j <= j1 + t,
                    a@.len() == self.degree,
                    forall|k: int|
                        0 <= k < self.degree ==> #[trigger] a@[k] == if k < j1 || (j1 <= k < j) || (
                        j1 + t <= k < j + t) {
                            lvl[k]
                        } else {
                            orig[k]
                        },
                decreases j1 + t - j,
            {
                let u = a[j];
                let w = a[j + t];
                let v = if shoup {
                    self.class.modmul_shoup(w, s, s_shoup)
                } else {
                    self.class.modmul(w, s)
                };
                let hi = self.class.modadd(u, v);
                let lo = self.class.modsub(u, v);
                proof {
                    lemma_group(i as int, t as int, j - j1);
                    lemma_group(i as int, t as int, j + t - j1);
                    assert(lvl[j as int] == hi);
                    assert(lvl[j + t] == lo);
                }
                a.set(j, hi);
                a.set(j + t, lo);
                j = j + 1;
            }
            i = i + 1;
        }
        proof {
            assert forall|k: int| 0 <= k < a@.len() implies #[trigger] a@[k] < q by {
                let kk = k / (2 * t as int);
                lemma_mod_bound(orig[k] + (orig[k + t as int] * self.tf@[n + kk] as int) % q, q);
                lemma_mod_bound(orig[k - t as int] - (orig[k] * self.tf@[n + kk] as int) % q, q);
            }
            assert(a@ =~= lvl);
        }
    }
    /// One inverse level, in place.
    fn inverse_level(&self, a: &mut Vec<u64>, n: usize, t: usize, shoup: bool)
        requires
            self.wf(),
            old(a)@.len() == self.degree,
            is_reduced(old(a)@, self.spec_modulus()),
            1 <= n,
            1 <= t,
            n * (2 * t) == self.degree,
        ensures
            final(a)@ == self.inv_level(old(a)@, n as nat, t as nat),
            is_reduced(final(a)@, self.spec_modulus()),
    {
        proof {
            self.lemma_wf_facts();
        }
        let ghost orig = a@;
        let ghost lvl = self.inv_level(orig, n as nat, t as nat);
        let ghost q = self.spec_modulus();
        let mut i: usize = 0;
        while i < n
            invariant
                self.wf(),
                3 <= q < MODULUS_BOUND,
                q == self.spec_modulus(),
                self.class.wf(),
                self.class.spec_q() == q,
                self.itf@.len() == self.degree,
                self.itf_shoup@.len() == self.degree,
                forall|k: int| 0 <= k < self.degree ==> #[trigger] self.itf@[k] < q,
                1 <= n,
                1 <= t,
                n * (2 * t) == self.degree,
                orig.len() == self.degree,
                is_reduced(orig, q),
                lvl == self.inv_level(orig, n as nat, t as nat),
                i <= n,
                a@.len() == self.degree,
                forall|k: int|
                    0 <= k < self.degree ==> #[trigger] a@[k] == if k < i * (2 * t) {
                        lvl[k]
                    } else {
                        orig[k]
                    },
            decreases n - i,
        {
            proof {
                lemma_mul_strict_inequality(i as int, n as int, (2 * t) as int);
                lemma_mul_is_distributive_add_other_way((2 * t) as int, i as int, 1);
                lemma_mul_inequality((i + 1) as int, n as int, (2 * t) as int);
                assert(n * (2 * t) >= 2 * n) by (nonlinear_arith)
                    requires
                        1 <= t,
                        1 <= n,
                ;
            }
            let j1: usize = i * (2 * t);
            let s = self.itf[n + i];
            let s_shoup = self.itf_shoup[n + i];
            let mut j: usize = j1;
            while j < j1 + t
                invariant
                    self.wf(),
                    3 <= q < MODULUS_BOUND,
                    q == self.spec_modulus(),
                    self.class.wf(),
                    self.class.spec_q() == q,
                    1 <= t,
                    i < n,
                    n * (2 * t) == self.degree,
                    j1 == i * (2 * t),
                    j1 + 2 * t <= self.degree,
                    s == self.itf@[n + i],
                    s < q,
                    s_shoup == shoup_of(s as int, q),
                    orig.len() == self.degree,
                    is_reduced(orig, q),
                    lvl == self.inv_level(orig, n as nat, t as nat),
                    j1 <= j <= j1 + t,
                    a@.len() == self.degree,
                    forall|k: int|
                        0 <= k < self.degree ==> #[trigger] a@[k] == if k < j1 || (j1 <= k < j) || (
                        j1 + t <= k < j + t) {
                            lvl[k]
                        } else {
                            orig[k]
                        },
                decreases j1 + t - j,
            {
                let u = a[j];
                let w = a[j + t];
                let hi = self.class.modadd(u, w);
                let diff = self.class.modsub(u, w);
                let lo = if shoup {
                    self.class.modmul_shoup(diff, s, s_shoup)
                } else {
                    self.class.modmul(diff, s)
                };
                proof {
                    lemma_group(i as int, t as int, j - j1);
                    lemma_group(i as int, t as int, j + t - j1);
                    assert(lvl[j as int] == hi);
                    assert(lvl[j + t] == lo);
                }
                a.set(j, hi);
                a.set(j + t, lo);
                j = j + 1;
            }
            i = i + 1;
        }
        proof {
            assert forall|k: int| 0 <= k < a@.len() implies #[trigger] a@[k] < q by {
                let kk = k / (2 * t as int);
                lemma_mod_bound(orig[k] + orig[k + t as int], q);
                lemma_mod_bound(((orig[k - t as int] - orig[k]) % q) * self.itf@[n + kk] as int, q);
            }
            assert(a@ =~= lvl);
        }
    }
    /// The forward transform, in place; `shoup` picks Shoup multiplication
    /// for the twiddle products, with identical results.
    pub(crate) fn forward(&self, a: &mut Vec<u64>, shoup: bool)
        requires
            self.wf(),
            old(a)@.len() == self.spec_degree(),
            is_reduced(old(a)@, self.spec_modulus()),
        ensures
            final(a)@ == self.forward_spec(old(a)@),
            final(a)@.len() == self.spec_degree(),
            is_reduced(final(a)@, self.spec_modulus()),
    {
        let ghost orig = a@;
        let ghost big_l = self.log_degree as nat;
        let mut n: usize = 1;
        let mut t: usize = self.degree / 2;
        let ghost mut l: nat = 0;
        proof {
            lemma2_to64();
            if big_l > 0 {
                lemma_pow2_unfold(big_l);
            }
        }
        while n < self.degree
            invariant
                self.wf(),
                big_l == self.log_degree,
                l <= big_l,
                n == pow2(l),
                l < big_l ==> t == pow2((big_l - l - 1) as nat),
                a@.len() == self.degree,
                is_reduced(a@, self.spec_modulus()),
                self.fwd_from(a@, l) == self.fwd_from(orig, 0),
            decreases big_l - l,
        {
            proof {
                if l >= big_l {
                    if l > big_l {
                        lemma_pow2_strictly_increases(big_l, l);
                    }
                    assert(false);
                }
                lemma_pow2_adds(l, (big_l - l - 1) as nat);
                lemma_pow2_unfold(big_l);
                assert(n * (2 * t) == self.degree) by (nonlinear_arith)
                    requires
                        n * t == pow2((big_l - 1) as nat),
                        self.degree == pow2(big_l),
                        pow2(big_l) == 2 * pow2((big_l - 1) as nat),
                ;
                lemma_pow2_pos((big_l - l - 1) as nat);
                lemma_pow2_unfold(l + 1);
                if l + 1 < big_l {
                    lemma_pow2_unfold((big_l - l - 1) as nat);
                }
                lemma_pow2_strictly_increases(l, big_l);
                if l + 1 < big_l {
                    lemma_pow2_strictly_increases(l + 1, big_l);
                }
            }
            self.forward_level(a, n, t, shoup);
            n = n * 2;
            t = t / 2;
            proof {
                l = l + 1;
            }
        }
        proof {
            if l < big_l {
                lemma_pow2_strictly_increases(l, big_l);
            }
        }
    }

    /// The inverse transform, in place, normalization by `N^(-1)` included;
    /// `shoup` picks Shoup multiplication, with identical results.
    pub(crate) fn inverse(&self, a: &mut Vec<u64>, shoup: bool)
        requires
            self.wf(),
            old(a)@.len() == self.spec_degree(),
            is_reduced(old(a)@, self.spec_modulus()),
        ensures
            final(a)@ == self.inverse_spec(old(a)@),
            final(a)@.len() == self.spec_degree(),
            is_reduced(final(a)@, self.spec_modulus()),
    {
        let ghost orig = a@;
        let ghost big_l = self.log_degree as nat;
        let mut t: usize = 1;
        let mut h: usize = self.degree / 2;
        let ghost mut l: nat = 0;
        proof {
            lemma2_to64();
            if big_l > 0 {
                lemma_pow2_unfold(big_l);
            }
        }
        while h > 0
            invariant
                self.wf(),
                big_l == self.log_degree,
                l <= big_l,
                t == pow2(l),
                h == if l < big_l {
                    pow2((big_l - l - 1) as nat)
                } else {
                    0
                },
                a@.len() == self.degree,
                is_reduced(a@, self.spec_modulus()),
                self.inv_from(a@, l) == self.inv_from(orig, 0),
            decreases big_l - l,
        {
            proof {
                lemma_pow2_adds(l, (big_l - l - 1) as nat);
                lemma_pow2_unfold(big_l);
                assert(h * (2 * t) == self.degree) by (nonlinear_arith)
                    requires
                        t * h == pow2((big_l - 1) as nat),
                        self.degree == pow2(big_l),
                        pow2(big_l) == 2 * pow2((big_l - 1) as nat),
                ;
                lemma_pow2_pos(l);
                lemma2_to64();
                lemma_pow2_unfold(l + 1);
                if l + 1 < big_l {
                    lemma_pow2_unfold((big_l - l - 1) as nat);
                    lemma_pow2_strictly_increases(l + 1, big_l);
                }
            }
            self.inverse_level(a, h, t, shoup);
            h = h / 2;
            t = t * 2;
            proof {
                l = l + 1;
            }
        }
        proof {
            if l < big_l {
                lemma_pow2_pos((big_l - l - 1) as nat);
            }
            assert(self.inv_from(a@, l) == a@);
        }
        let ghost b = a@;
        let q = self.class.q();
        let mut k: usize = 0;
        while k < self.degree
            invariant
                self.wf(),
                q == self.spec_modulus(),
                b == self.inv_from(orig, 0),
                b.len() == self.degree,
                is_reduced(b, q as int),
                k <= self.degree,
                a@.len() == self.degree,
                forall|i: int|
                    0 <= i < self.degree ==> #[trigger] a@[i] == if i < k {
                        ((b[i] * self.inv_n) % (q as int)) as u64
                    } else {
                        b[i]
                    },
            decreases self.degree - k,
        {
            let x = a[k];
            let y = if shoup {
                self.class.modmul_shoup(x, self.inv_n, self.inv_n_shoup)
            } else {
                self.class.modmul(x, self.inv_n)
            };
            a.set(k, y);
            k = k + 1;
        }
        proof {
            assert forall|i: int| 0 <= i < a@.len() implies #[trigger] a@[i] < q by {
                lemma_mod_bound(b[i] * self.inv_n, q as int);
            }
            assert(a@ =~= self.inverse_spec(orig));
        }
    }

    /// Entry-by-entry products modulo `q`.
    pub(crate) fn pointwise(&self, a: &Vec<u64>, b: &Vec<u64>) -> (r: Vec<u64>)
        requires
            self.wf(),
            a@.len() == b@.len(),
            is_reduced(a@, self.spec_modulus()),
            is_reduced(b@, self.spec_modulus()),
        ensures
            r@.len() == a@.len(),
            forall|i: int|
                0 <= i < a@.len() ==> #[trigger] r@[i] == (a@[i] * b@[i]) % self.spec_modulus(),
    {
        let mut r: Vec<u64> = Vec::new();
        let mut i: usize = 0;
        while i < a.len()
            invariant
                self.wf(),
                a@.len() == b@.len(),
                is_reduced(a@, self.spec_modulus()),
                is_reduced(b@, self.spec_modulus()),
                i <= a@.len(),
                r@.len() == i,
                forall|j: int|
                    0 <= j < i ==> #[trigger] r@[j] == (a@[j] * b@[j]) % self.spec_modulus(),
            decreases a@.len() - i,
        {
            r.push(self.class.modmul(a[i], b[i]));
            i = i + 1;
        }
        r
    }
}

impl NttContext {
    /// Every entry times `c`, modulo `q`.
    spec fn scale(&self, y: Seq<u64>, c: int) -> Seq<u64> {
        Seq::new(y.len(), |k: int| ((y[k] * c) % self.class.spec_q()) as u64)
    }

    /// The first `l` forward levels, applied in order.
    spec fn fwd_to(&self, a: Seq<u64>, l: nat) -> Seq<u64>
        decreases l,
    {
        if l == 0 {
            a
        } else {
            self.fwd_level(
                self.fwd_to(a, (l - 1) as nat),
                pow2((l - 1) as nat),
                pow2((self.log_degree - l) as nat),
            )
        }
    }

    proof fn lemma_fwd_level_shape(&self, y: Seq<u64>, n: nat, t: nat)
        requires
            self.wf(),
        ensures
            self.fwd_level(y, n, t).len() == y.len(),
            is_reduced(self.fwd_level(y, n, t), self.spec_modulus()),
    {
        let q = self.spec_modulus();
        let f = self.fwd_level(y, n, t);
        assert forall|k: int| 0 <= k < f.len() implies #[trigger] f[k] < q by {
            let i = k / (2 * t as int);
            let s = self.tf@[n + i] as int;
            lemma_mod_bound(y[k] + (y[k + t] * s) % q, q);
            lemma_mod_bound(y[k - t] - (y[k] * s) % q, q);
        }
    }

    proof fn lemma_fwd_to_shape(&self, a: Seq<u64>, l: nat)
        requires
            self.wf(),
            is_reduced(a, self.spec_modulus()),
        ensures
            self.fwd_to(a, l).len() == a.len(),
            is_reduced(self.fwd_to(a, l), self.spec_modulus()),
        decreases l,
    {
        if l > 0 {
            self.lemma_fwd_to_shape(a, (l - 1) as nat);
            self.lemma_fwd_level_shape(
                self.fwd_to(a, (l - 1) as nat),
                pow2((l - 1) as nat),
                pow2((self.log_degree - l) as nat),
            );
        }
    }

    /// Running the remaining levels after the first `l` gives all levels.
    proof fn lemma_fwd_from_to(&self, a: Seq<u64>, l: nat)
        requires
            l <= self.log_degree,
        ensures
            self.fwd_from(self.fwd_to(a, l), l) == self.fwd_to(a, self.log_degree as nat),
        decreases self.log_degree - l,
    {
        if l < self.log_degree {
            self.lemma_fwd_from_to(a, l + 1);
        }
    }

    /// Scaling twice multiplies the factors.
    proof fn lemma_scale_scale(&self, y: Seq<u64>, c1: int, c2: int)
        requires
            self.wf(),
        ensures
            self.scale(self.scale(y, c1), c2) == self.scale(y, c1 * c2),
    {
        let q = self.spec_modulus();
        self.lemma_wf_facts();
        assert forall|k: int| 0 <= k < y.len() implies #[trigger] self.scale(self.scale(y, c1), c2)[k]
            == self.scale(y, c1 * c2)[k] by {
            lemma_mod_bound(y[k] * c1, q);
            lemma_mul_mod_noop_left(y[k] * c1, c2, q);
            lemma_mul_is_associative(y[k] as int, c1, c2);
        }
        assert(self.scale(self.scale(y, c1), c2) =~= self.scale(y, c1 * c2));
    }

    /// Scaling canonical residues by a factor that is one modulo `q` keeps
    /// them.
    proof fn lemma_scale_unit(&self, y: Seq<u64>, c: int)
        requires
            self.wf(),
            is_reduced(y, self.spec_modulus()),
            c % self.spec_modulus() == 1,
        ensures
            self.scale(y, c) == y,
    {
        let q = self.spec_modulus();
        self.lemma_wf_facts();
        assert forall|k: int| 0 <= k < y.len() implies #[trigger] self.scale(y, c)[k] == y[k] by {
            lemma_mul_mod_noop_right(y[k] as int, c, q);
            lemma_small_mod(y[k] as nat, q as nat);
        }
        assert(self.scale(y, c) =~= y);
    }

    /// An inverse level commutes with scaling.
    proof fn lemma_inv_level_scale(&self, y: Seq<u64>, h: nat, t: nat, c: int)
        requires
            self.wf(),
            y.len() == self.degree,
            1 <= h,
            1 <= t,
            h * (2 * t) == self.degree,
        ensures
            self.inv_level(self.scale(y, c), h, t) == self.scale(self.inv_level(y, h, t), c),
    {
        let q = self.spec_modulus();
        self.lemma_wf_facts();
        let z = self.scale(y, c);
        let tt = 2 * t as int;
        assert forall|k: int| 0 <= k < y.len() implies #[trigger] self.inv_level(z, h, t)[k]
            == self.scale(self.inv_level(y, h, t), c)[k] by {
            let i = k / tt;
            let d = k % tt;
            lemma_fundamental_div_mod(k, tt);
            lemma_mod_bound(k, tt);
            lemma_div_pos_is_pos(k, tt);
            assert(i < h) by (nonlinear_arith)
                requires
                    k == tt * i + d,
                    0 <= d,
                    k < h * tt,
                    0 < tt,
            ;
            let s = self.itf@[h + i] as int;
            if d < t {
                assert(k + t < y.len()) by (nonlinear_arith)
                    requires
                        k == tt * i + d,
                        d < t,
                        i < h,
                        tt == 2 * t,
                        y.len() == h * tt,
                ;
                let x1 = y[k] as int;
                let x2 = y[k + t] as int;
                lemma_mod_bound(x1 * c, q);
                lemma_mod_bound(x2 * c, q);
                lemma_mod_bound(x1 + x2, q);
                lemma_add_mod_noop(x1 * c, x2 * c, q);
                lemma_mul_mod_noop_left(x1 + x2, c, q);
                assert((x1 + x2) * c == x1 * c + x2 * c) by (nonlinear_arith);
            } else {
                let x1 = y[k - t] as int;
                let x2 = y[k] as int;
                lemma_mod_bound(x1 * c, q);
                lemma_mod_bound(x2 * c, q);
                lemma_mod_bound(x1 - x2, q);
                lemma_sub_mod_noop(x1 * c, x2 * c, q);
                assert(x1 * c - x2 * c == (x1 - x2) * c) by (nonlinear_arith);
                let m = x1 - x2;
                let e = m % q;
                lemma_mul_mod_noop_left(m * c, s, q);
                lemma_mul_mod_noop_left(e * s, c, q);
                lemma_mul_mod_noop_left(m, s * c, q);
                assert((e * s) * c == e * (s * c)) by (nonlinear_arith);
                assert((m * c) * s == m * (s * c)) by (nonlinear_arith);
                lemma_mod_bound(e * s, q);
                lemma_mod_bound((m * c) * s, q);
            }
        }
        assert(self.inv_level(z, h, t) =~= self.scale(self.inv_level(y, h, t), c));
    }
}

impl NttContext {
    /// The group count and half-size of a level multiply to `N / 2`.
    proof fn lemma_level_sizes(&self, l: nat)
        requires
            self.wf(),
            l < self.log_degree,
        ensures
            pow2(l) >= 1,
            pow2((self.log_degree - l - 1) as nat) >= 1,
            pow2(l) * (2 * pow2((self.log_degree - l - 1) as nat)) == self.degree,
            pow2((self.log_degree - l - 1) as nat) * (2 * pow2(l)) == self.degree,
    {
        let big_l = self.log_degree as nat;
        lemma_pow2_pos(l);
        lemma_pow2_pos((big_l - l - 1) as nat);
        lemma_pow2_adds(l, (big_l - l - 1) as nat);
        lemma_pow2_unfold(big_l);
        let a = pow2(l);
        let b = pow2((big_l - l - 1) as nat);
        assert(a * (2 * b) == 2 * (a * b)) by (nonlinear_arith);
        assert(b * (2 * a) == 2 * (a * b)) by (nonlinear_arith);
    }

    /// The inverse levels from `l` on commute with scaling.
    proof fn lemma_inv_from_scale(&self, y: Seq<u64>, l: nat, c: int)
        requires
            self.wf(),
            y.len() == self.degree,
        ensures
            self.inv_from(self.scale(y, c), l) == self.scale(self.inv_from(y, l), c),
        decreases self.log_degree - l,
    {
        if l < self.log_degree {
            let h = pow2((self.log_degree - l - 1) as nat);
            let t = pow2(l);
            self.lemma_level_sizes(l);
            self.lemma_inv_level_scale(y, h, t, c);
            self.lemma_inv_from_scale(self.inv_level(y, h, t), l + 1, c);
        }
    }

    /// An inverse level undoes the forward level with the same group count,
    /// up to a factor of two.
    proof fn lemma_cancel(&self, y: Seq<u64>, n: nat, t: nat)
        requires
            self.wf(),
            y.len() == self.degree,
            is_reduced(y, self.spec_modulus()),
            1 <= n,
            1 <= t,
            n * (2 * t) == self.degree,
        ensures
            self.inv_level(self.fwd_level(y, n, t), n, t) == self.scale(y, 2),
    {
        let q = self.spec_modulus();
        self.lemma_wf_facts();
        let f = self.fwd_level(y, n, t);
        let tt = 2 * t as int;
        assert forall|k: int| 0 <= k < y.len() implies #[trigger] self.inv_level(f, n, t)[k]
            == self.scale(y, 2)[k] by {
            let i = k / tt;
            let d = k % tt;
            lemma_fundamental_div_mod(k, tt);
            lemma_mod_bound(k, tt);
            lemma_div_pos_is_pos(k, tt);
            assert(i < n) by (nonlinear_arith)
                requires
                    k == tt * i + d,
                    0 <= d,
                    k < n * tt,
                    0 < tt,
            ;
            assert(n + i < self.degree) by (nonlinear_arith)
                requires
                    i < n,
                    1 <= t,
                    n * (2 * t) == self.degree,
            ;
            lemma_twiddle_inverse(self, n + i);
            let s = self.tf@[n + i] as int;
            let s2 = self.itf@[n + i] as int;
            lemma_mul_is_commutative(tt, i);
            if d < t {
                assert(k + t < y.len()) by (nonlinear_arith)
                    requires
                        k == tt * i + d,
                        d < t,
                        i < n,
                        tt == 2 * t,
                        y.len() == n * tt,
                ;
                lemma_group(i, t as int, d + t);
                let w = (y[k + t] * s) % q;
                lemma_mod_bound(y[k] + w, q);
                lemma_mod_bound(y[k] - w, q);
                lemma_add_mod_noop(y[k] + w, y[k] - w, q);
            } else {
                lemma_group(i, t as int, d - t);
                let w = (y[k] * s) % q;
                lemma_mod_bound(y[k - t] + w, q);
                lemma_mod_bound(y[k - t] - w, q);
                lemma_sub_mod_noop(y[k - t] + w, y[k - t] - w, q);
                // (2w mod q) s2 = 2 y s s2 = 2 y (mod q)
                let yk = y[k] as int;
                lemma_mul_mod_noop_left(2 * w, s2, q);
                lemma_mul_mod_noop_right(2 * s2, yk * s, q);
                assert((2 * w) * s2 == (2 * s2) * w) by (nonlinear_arith);
                assert((2 * s2) * (yk * s) == (yk * 2) * (s * s2)) by (nonlinear_arith);
                lemma_mul_mod_noop_right(yk * 2, s * s2, q);
                lemma_mod_bound(2 * w, q);
                lemma_mod_bound(yk * 2, q);
            }
        }
        assert(self.inv_level(f, n, t) =~= self.scale(y, 2));
    }

    /// Undoing the first `L - l` forward levels with the inverse levels from
    /// `l` on leaves `a` scaled by `2^(L - l)`.
    proof fn lemma_undo(&self, a: Seq<u64>, l: nat)
        requires
            self.wf(),
            a.len() == self.degree,
            is_reduced(a, self.spec_modulus()),
            l <= self.log_degree,
        ensures
            self.inv_from(self.fwd_to(a, (self.log_degree - l) as nat), l) == self.scale(
                a,
                pow2((self.log_degree - l) as nat) as int,
            ),
        decreases self.log_degree - l,
    {
        let big_l = self.log_degree as nat;
        if l == big_l {
            lemma2_to64();
            lemma_small_mod(1, self.spec_modulus() as nat);
            self.lemma_wf_facts();
            self.lemma_scale_unit(a, 1);
        } else {
            let m = (big_l - l - 1) as nat;
            let y = self.fwd_to(a, m);
            let n = pow2(m);
            let t = pow2(l);
            self.lemma_fwd_to_shape(a, m);
            self.lemma_level_sizes(l);
            assert((big_l - l) as nat == m + 1);
            assert(self.fwd_to(a, m + 1) == self.fwd_level(y, n, t));
            self.lemma_cancel(y, n, t);
            self.lemma_inv_from_scale(y, l + 1, 2);
            self.lemma_undo(a, l + 1);
            self.lemma_scale_scale(a, pow2(m) as int, 2);
            lemma_pow2_unfold(m + 1);
            assert(pow2(m) as int * 2 == pow2(m + 1) as int);
        }
    }
}

/// The inverse transform undoes the forward transform on every vector of
/// `N` canonical residues.
pub proof fn lemma_round_trip(ctx: &NttContext, a: Seq<u64>)
    requires
        ctx.wf(),
        a.len() == ctx.spec_degree(),
        is_reduced(a, ctx.spec_modulus()),
    ensures
        ctx.inverse_spec(ctx.forward_spec(a)) == a,
{
    let big_l = ctx.log_degree as nat;
    ctx.lemma_fwd_from_to(a, 0);
    assert(ctx.fwd_to(a, 0) == a);
    ctx.lemma_undo(a, 0);
    let b = ctx.inv_from(ctx.fwd_from(a, 0), 0);
    assert(ctx.inverse_spec(ctx.forward_spec(a)) == ctx.scale(b, ctx.inv_n as int));
    ctx.lemma_scale_scale(a, pow2(big_l) as int, ctx.inv_n as int);
    lemma_mul_is_commutative(pow2(big_l) as int, ctx.inv_n as int);
    ctx.lemma_scale_unit(a, pow2(big_l) as int * ctx.inv_n as int);
}

/// `bit_rev(0, len) == 0`.
proof fn lemma_bit_rev_zero(len: nat)
    ensures
        bit_rev(0, len) == 0,
    decreases len,
{
    if len > 0 {
        lemma_bit_rev_zero((len - 1) as nat);
        assert(0nat % 2 == 0 && 0nat / 2 == 0);
        assert(bit_rev(0, len) == (0nat % 2) * pow2((len - 1) as nat) + bit_rev(0nat / 2, (len - 1) as nat));
        assert((0nat % 2) * pow2((len - 1) as nat) == 0);
    }
}

/// Reversing `x < 2^l` over `len >= l` bits puts its reversal over `l` bits
/// at the top.
proof fn lemma_bit_rev_widen(x: nat, l: nat, len: nat)
    requires
        x < pow2(l),
        l <= len,
    ensures
        bit_rev(x, len) == pow2((len - l) as nat) * bit_rev(x, l),
    decreases l,
{
    if l == 0 {
        lemma2_to64();
        assert(x == 0);
        lemma_bit_rev_zero(len);
        assert(bit_rev(x, 0) == 0);
    } else {
        lemma_pow2_unfold(l);
        let h = pow2((l - 1) as nat);
        assert(x / 2 < h);
        lemma_bit_rev_widen(x / 2, (l - 1) as nat, (len - 1) as nat);
        lemma_pow2_adds((len - l) as nat, (l - 1) as nat);
        assert(((len - 1) as nat - (l - 1) as nat) as nat == (len - l) as nat);
        assert((len - l) as nat + (l - 1) as nat == (len - 1) as nat);
        let p = pow2((len - l) as nat);
        let b2 = bit_rev(x / 2, (l - 1) as nat);
        assert(bit_rev(x / 2, (len - 1) as nat) == p * b2);
        assert(bit_rev(x, len) == (x % 2) * pow2((len - 1) as nat) + bit_rev(x / 2, (len - 1) as nat));
        assert(bit_rev(x, l) == (x % 2) * h + b2);
        assert((x % 2) * pow2((len - 1) as nat) + p * b2 == p * ((x % 2) * h + b2)) by (nonlinear_arith)
            requires
                pow2((len - 1) as nat) == p * h,
        ;
    }
}

/// Reversing `2^l + x` with `x < 2^l < 2^len` adds `2^(len-1-l)` to the
/// reversal of `x`.
proof fn lemma_bit_rev_top(x: nat, l: nat, len: nat)
    requires
        x < pow2(l),
        l < len,
    ensures
        bit_rev(pow2(l) + x, len) == pow2((len - 1 - l) as nat) + bit_rev(x, len),
    decreases l,
{
    if l == 0 {
        lemma2_to64();
        assert(x == 0);
        lemma_bit_rev_zero((len - 1) as nat);
        lemma_bit_rev_zero(len);
        assert(pow2(0) + x == 1);
        assert(bit_rev(1, len) == (1nat % 2) * pow2((len - 1) as nat) + bit_rev(1nat / 2, (len - 1) as nat));
        assert(1nat % 2 == 1 && 1nat / 2 == 0);
        assert((1nat % 2) * pow2((len - 1) as nat) == pow2((len - 1) as nat));
        assert(bit_rev(1, len) == pow2((len - 1) as nat));
        assert((len - 1 - l) as nat == (len - 1) as nat);
    } else {
        lemma_pow2_unfold(l);
        let h = pow2((l - 1) as nat);
        let y = pow2(l) + x;
        assert(y % 2 == x % 2 && y / 2 == h + x / 2) by {
            lemma_fundamental_div_mod(x as int, 2);
            lemma_fundamental_div_mod_converse(y as int, 2, (h + x / 2) as int, (x % 2) as int);
        }
        assert(x / 2 < h);
        lemma_bit_rev_top(x / 2, (l - 1) as nat, (len - 1) as nat);
        assert(((len - 1) as nat - 1 - (l - 1) as nat) as nat == (len - 1 - l) as nat);
        let t = pow2((len - 1 - l) as nat);
        assert(bit_rev(h + x / 2, (len - 1) as nat) == t + bit_rev(x / 2, (len - 1) as nat));
        assert(bit_rev(y, len) == (y % 2) * pow2((len - 1) as nat) + bit_rev(y / 2, (len - 1) as nat));
        assert(bit_rev(x, len) == (x % 2) * pow2((len - 1) as nat) + bit_rev(x / 2, (len - 1) as nat));
    }
}

/// Odd powers of `q - 1` are `q - 1` modulo `q`.
proof fn lemma_minus_one_odd_power(q: int, m: nat)
    requires
        1 < q,
        m % 2 == 1,
    ensures
        power(q - 1, m) % q == q - 1,
    decreases m,
{
    assert((q - 1) * (q - 1) == (q - 2) * q + 1) by (nonlinear_arith);
    lemma_mod_from_parts((q - 1) * (q - 1), q, q - 2, 1);
    if m == 1 {
        assert(power(q - 1, 0) == 1);
        assert(power(q - 1, 1) == (q - 1) * power(q - 1, 0));
        assert((q - 1) * power(q - 1, 0) == q - 1) by (nonlinear_arith)
            requires
                power(q - 1, 0) == 1,
        ;
        assert(power(q - 1, 1) == q - 1);
        lemma_small_mod((q - 1) as nat, q as nat);
        assert((q - 1) % q == q - 1);
        assert(m == 1);
    } else {
        lemma_minus_one_odd_power(q, (m - 2) as nat);
        let p = power(q - 1, (m - 2) as nat);
        assert(power(q - 1, (m - 1) as nat) == (q - 1) * p);
        assert(power(q - 1, m) == (q - 1) * power(q - 1, (m - 1) as nat));
        assert(power(q - 1, m) == (q - 1) * ((q - 1) * p));
        lemma_mul_is_associative(q - 1, q - 1, p);
        lemma_mul_mod_noop((q - 1) * (q - 1), p, q);
        lemma_small_mod(1, q as nat);
        lemma_small_mod((q - 1) as nat, q as nat);
        assert(((q - 1) * (q - 1)) % q == 1);
        assert(p % q == q - 1);
        assert((1 * (q - 1)) % q == q - 1);
        assert(power(q - 1, m) % q == ((((q - 1) * (q - 1)) % q) * (p % q)) % q);
    }
}

/// `a[r], a[r + m], a[r + 2m], ...`, `k` of them, as integers.
spec fn strided(a: Seq<u64>, r: int, m: int, k: nat) -> Seq<int> {
    Seq::new(k, |j: int| a[r + j * m] as int)
}

impl NttContext {
    /// The exponent of the root that block `beta` reduces by after `l`
    /// forward levels: `2^(L-l) (1 + 2 rev_l(beta))`.
    spec fn root_exp(&self, l: nat, beta: nat) -> nat {
        pow2((self.log_degree - l) as nat) * (1 + 2 * bit_rev(beta, l))
    }

    /// That root, `g^root_exp mod q`.
    spec fn root(&self, l: nat, beta: nat) -> int {
        power(self.generator as int, self.root_exp(l, beta)) % self.class.spec_q()
    }

    /// The twiddle of group `beta` at level `l` is the root of its first
    /// half.
    proof fn lemma_twiddle_is_root(&self, l: nat, beta: nat)
        requires
            self.wf(),
            l < self.log_degree,
            beta < pow2(l),
        ensures
            pow2(l) + beta < self.degree,
            self.tf@[pow2(l) + beta as int] as int == self.root(l + 1, 2 * beta),
    {
        let big_l = self.log_degree as nat;
        lemma_pow2_unfold(l + 1);
        if l + 1 < big_l {
            lemma_pow2_strictly_increases(l + 1, big_l);
        }
        lemma_bit_rev_top(beta, l, big_l);
        lemma_bit_rev_widen(beta, l, big_l);
        assert(bit_rev(2 * beta, l + 1) == bit_rev(beta, l)) by {
            assert((2 * beta) % 2 == 0 && (2 * beta) / 2 == beta) by (nonlinear_arith);
        }
        let h = pow2((big_l - 1 - l) as nat);
        lemma_pow2_unfold((big_l - l) as nat);
        assert(((big_l - l) as nat - 1) as nat == (big_l - 1 - l) as nat);
        assert(h * (1 + 2 * bit_rev(beta, l)) == h + pow2((big_l - l) as nat) * bit_rev(beta, l))
            by (nonlinear_arith)
            requires
                pow2((big_l - l) as nat) == 2 * h,
        ;
    }

    /// The roots of the two halves square to the root of the whole, and the
    /// second is the negation of the first.
    proof fn lemma_root_halves(&self, l: nat, beta: nat)
        requires
            self.wf(),
            l < self.log_degree,
        ensures
            (self.root(l + 1, 2 * beta) * self.root(l + 1, 2 * beta)) % self.spec_modulus()
                == self.root(l, beta),
            (self.root(l + 1, 2 * beta + 1) * self.root(l + 1, 2 * beta + 1)) % self.spec_modulus()
                == self.root(l, beta),
            (self.root(l + 1, 2 * beta + 1) + self.root(l + 1, 2 * beta)) % self.spec_modulus()
                == 0,
    {
        let big_l = self.log_degree as nat;
        let q = self.spec_modulus();
        let g = self.generator as int;
        self.lemma_wf_facts();
        lemma_generator_order(self);
        let h = pow2((big_l - 1 - l) as nat);
        lemma_pow2_unfold((big_l - l) as nat);
        assert(((big_l - l) as nat - 1) as nat == (big_l - 1 - l) as nat);
        assert(bit_rev(2 * beta, l + 1) == bit_rev(beta, l)) by {
            assert((2 * beta) % 2 == 0 && (2 * beta) / 2 == beta) by (nonlinear_arith);
        }
        assert(bit_rev(2 * beta + 1, l + 1) == pow2(l) + bit_rev(beta, l)) by {
            assert((2 * beta + 1) % 2 == 1 && (2 * beta + 1) / 2 == beta) by (nonlinear_arith);
        }
        let e = self.root_exp(l + 1, 2 * beta);
        let e0 = self.root_exp(l, beta);
        let b = bit_rev(beta, l);
        assert(e0 == e + e) by (nonlinear_arith)
            requires
                e == h * (1 + 2 * b),
                e0 == pow2((big_l - l) as nat) * (1 + 2 * b),
                pow2((big_l - l) as nat) == 2 * h,
        ;
        lemma_pow2_adds((big_l - 1 - l) as nat, l + 1);
        lemma_pow2_unfold(l + 1);
        assert((big_l - 1 - l) as nat + (l + 1) == big_l);
        let e1 = self.root_exp(l + 1, 2 * beta + 1);
        assert(e1 == e + self.degree) by (nonlinear_arith)
            requires
                e == h * (1 + 2 * b),
                e1 == h * (1 + 2 * (pow2(l) + b)),
                h * pow2(l + 1) == self.degree,
                pow2(l + 1) == 2 * pow2(l),
        ;
        let pe = power(g, e);
        let pn = power(g, self.degree as nat);
        // first half
        lemma_power_adds(g, e, e);
        lemma_mul_mod_noop(pe, pe, q);
        // second half: g^(e + N) = g^e g^N
        lemma_power_adds(g, e, self.degree as nat);
        let pe1 = pe * pn;
        lemma_power_adds(g, e1, e1);
        lemma_power_adds(g, e + e, 2 * self.degree as nat);
        assert(e1 + e1 == (e + e) + 2 * self.degree as nat);
        lemma_mul_mod_noop(power(g, e1), power(g, e1), q);
        lemma_mul_mod_noop(power(g, e + e), power(g, 2 * self.degree as nat), q);
        lemma_mod_bound(power(g, e + e), q);
        lemma_small_mod((power(g, e + e) % q) as nat, q as nat);
        // the sum: g^e (g^N + 1) = 0
        assert(power(g, e1) == pe * pn);
        assert(pn % q == q - 1);
        assert(pe * pn + pe == pe * (pn + 1)) by (nonlinear_arith);
        lemma_add_mod_noop(pn, 1, q);
        lemma_small_mod(1, q as nat);
        lemma_mod_self_0(q);
        assert((pn + 1) % q == 0);
        lemma_mul_mod_noop_right(pe, pn + 1, q);
        assert(pe * 0 == 0);
        lemma_small_mod(0, q as nat);
        assert((pe * (pn + 1)) % q == 0);
        lemma_add_mod_noop(power(g, e1), pe, q);
        assert((self.root(l + 1, 2 * beta + 1) + self.root(l + 1, 2 * beta)) == (power(g, e1) % q) + (pe % q));
    }

    /// After all levels each root is a root of `x^N + 1`.
    proof fn lemma_root_final(&self, beta: nat)
        requires
            self.wf(),
        ensures
            power(self.root(self.log_degree as nat, beta), self.degree as nat) % self.spec_modulus()
                == self.spec_modulus() - 1,
    {
        let big_l = self.log_degree as nat;
        let q = self.spec_modulus();
        let g = self.generator as int;
        let n = self.degree as nat;
        self.lemma_wf_facts();
        lemma_generator_order(self);
        lemma2_to64();
        let m = (1 + 2 * bit_rev(beta, big_l)) as nat;
        assert((self.log_degree - big_l) as nat == 0);
        assert(pow2(0) == 1);
        assert(self.root_exp(big_l, beta) == 1 * m);
        lemma_power_mod(power(g, m), n, q);
        lemma_power_multiplies(g, m, n);
        lemma_power_multiplies(g, n, m);
        assert(m * n == n * m) by (nonlinear_arith);
        lemma_power_mod(power(g, n), m, q);
        assert((m as int) % 2 == 1) by (nonlinear_arith)
            requires
                m == 1 + 2 * bit_rev(beta, big_l),
        ;
        lemma_minus_one_odd_power(q, m);
    }
}

/// The butterfly of two reduced sums agrees with the split evaluation.
proof fn lemma_combine(q: int, y1: int, y2: int, e1: int, e2: int, u: int, v: int, c: int, s: int, plus: bool)
    requires
        1 < q,
        y1 == e1 % q,
        y2 == e2 % q,
        u % q == e1 % q,
        v % q == e2 % q,
        plus ==> c == s,
        !plus ==> (c + s) % q == 0,
    ensures
        plus ==> (y1 + (y2 * s) % q) % q == (u + c * v) % q,
        !plus ==> (y1 - (y2 * s) % q) % q == (u + c * v) % q,
{
    lemma_mul_mod_noop_left(e2, s, q);
    lemma_mul_mod_noop_right(c, v, q);
    lemma_mul_mod_noop_right(c, e2, q);
    lemma_add_mod_noop(u, c * v, q);
    lemma_add_mod_noop(e1, c * e2, q);
    lemma_mul_is_commutative(e2, s);
    if plus {
        lemma_add_mod_noop(e1, e2 * s, q);
    } else {
        lemma_sub_mod_noop(e1, e2 * s, q);
        let d = e2 * (c + s);
        lemma_mul_mod_noop_right(e2, c + s, q);
        lemma_small_mod(0, q as nat);
        assert(d % q == 0);
        assert(e1 + c * e2 == (e1 - e2 * s) + d) by (nonlinear_arith)
            requires
                d == e2 * (c + s),
        ;
        lemma_add_mod_noop(e1 - e2 * s, d, q);
        lemma_mod_twice(e1 - e2 * s, q);
    }
}

impl NttContext {
    /// After `l` forward levels, block `beta` (of size `M = 2^(L-l)`) holds
    /// the input reduced modulo `x^M - root(l, beta)`: its entry `r` is
    /// `sum_k a[r + k M] root^k`.
    proof fn lemma_blocks(&self, a: Seq<u64>, l: nat, beta: nat, r: nat)
        requires
            self.wf(),
            a.len() == self.degree,
            is_reduced(a, self.spec_modulus()),
            l <= self.log_degree,
            beta < pow2(l),
            r < pow2((self.log_degree - l) as nat),
        ensures
            beta * pow2((self.log_degree - l) as nat) + r < self.degree,
            self.fwd_to(a, l)[(beta * pow2((self.log_degree - l) as nat) + r) as int] as int == eval_upto(
                strided(a, r as int, pow2((self.log_degree - l) as nat) as int, pow2(l)),
                self.root(l, beta),
                pow2(l),
            ) % self.spec_modulus(),
        decreases l,
    {
        let big_l = self.log_degree as nat;
        let q = self.spec_modulus();
        let mm = pow2((big_l - l) as nat);
        self.lemma_wf_facts();
        lemma_pow2_adds(l, (big_l - l) as nat);
        assert(l + (big_l - l) as nat == big_l);
        assert(beta * mm + r < self.degree) by (nonlinear_arith)
            requires
                beta < pow2(l),
                r < mm,
                pow2(l) * mm == self.degree,
        ;
        if l == 0 {
            lemma2_to64();
            assert(beta == 0);
            let x = strided(a, r as int, mm as int, 1);
            assert(eval_upto(x, self.root(0, 0), 1) == eval_upto(x, self.root(0, 0), 0) + x[0] * power(
                self.root(0, 0),
                0,
            ));
            lemma_small_mod(a[r as int] as nat, q as nat);
        } else {
            let l0 = (l - 1) as nat;
            let b0 = beta / 2;
            let p = beta % 2;
            let t = mm;
            let m0 = pow2((big_l - l0) as nat);
            let k0 = pow2(l0);
            lemma_pow2_unfold(l);
            lemma_pow2_unfold((big_l - l0) as nat);
            assert(((big_l - l0) as nat - 1) as nat == (big_l - l) as nat);
            assert(m0 == 2 * t);
            assert(beta == 2 * b0 + p);
            assert(b0 < k0);
            self.lemma_blocks(a, l0, b0, r);
            self.lemma_blocks(a, l0, b0, r + t);
            let y = self.fwd_to(a, l0);
            self.lemma_fwd_to_shape(a, l0);
            let e = strided(a, r as int, m0 as int, k0);
            let o = strided(a, (r + t) as int, m0 as int, k0);
            let x = strided(a, r as int, t as int, pow2(l));
            let c0 = self.root(l0, b0);
            let e1 = eval_upto(e, c0, k0);
            let e2 = eval_upto(o, c0, k0);
            // the new entry, from the butterfly
            let k: int = (beta * mm + r) as int;
            let ti: int = t as int;
            assert(k == b0 * (2 * t) + (p * t + r)) by (nonlinear_arith)
                requires
                    beta == 2 * b0 + p,
                    k == beta * mm + r,
                    mm == t,
            ;
            assert(p * t + r < 2 * t) by (nonlinear_arith)
                requires
                    p < 2,
                    r < t,
            ;
            assert(b0 * m0 == b0 * (2 * t)) by (nonlinear_arith)
                requires
                    m0 == 2 * t,
            ;
            lemma_group(b0 as int, t as int, (p * t + r) as int);
            self.lemma_twiddle_is_root(l0, b0);
            let s = self.tf@[k0 + b0 as int] as int;
            assert(b0 * m0 + r == b0 * (2 * t) + r);
            // the target, split into even and odd positions
            let c = self.root(l, beta);
            assert forall|j: int| 0 <= j < k0 implies #[trigger] e[j] == x[2 * j] by {
                assert(r + j * m0 == r + (2 * j) * t) by (nonlinear_arith)
                    requires
                        m0 == 2 * t,
                ;
            }
            assert forall|j: int| 0 <= j < k0 implies #[trigger] o[j] == x[2 * j + 1] by {
                assert(r + t + j * m0 == r + (2 * j + 1) * t) by (nonlinear_arith)
                    requires
                        m0 == 2 * t,
                ;
            }
            assert(pow2(l) == 2 * k0);
            lemma_eval_split(x, e, o, c, k0);
            self.lemma_root_halves(l0, b0);
            lemma_mod_bound(power(self.generator as int, self.root_exp(l0, b0)), q);
            lemma_small_mod(c0 as nat, q as nat);
            lemma_eval_point_mod(e, c * c, c0, k0, q);
            lemma_eval_point_mod(o, c * c, c0, k0, q);
            let u = eval_upto(e, c * c, k0);
            let v = eval_upto(o, c * c, k0);
            let fl = self.fwd_level(y, k0, t);
            assert(self.fwd_to(a, l) == fl);
            if p == 0 {
                assert(2 * b0 == beta);
                assert(fl[k] == ((y[k] + (y[k + ti] * s) % q) % q) as u64);
                lemma_combine(q, y[k] as int, y[k + ti] as int, e1, e2, u, v, c, s, true);
                lemma_mod_bound(y[k] + (y[k + ti] * s) % q, q);
            } else {
                assert(2 * b0 + 1 == beta);
                assert(p * t == t);
                assert(k - ti == b0 * m0 + r);
                assert(fl[k] == ((y[k - ti] - (y[k] * s) % q) % q) as u64);
                lemma_combine(q, y[k - ti] as int, y[k] as int, e1, e2, u, v, c, s, false);
                lemma_mod_bound(y[k - ti] - (y[k] * s) % q, q);
            }
        }
    }
}

impl NttContext {
    /// Entry `beta` of the forward transform is the input evaluated at
    /// `root(L, beta)`, a root of `x^N + 1`.
    proof fn lemma_forward_eval(&self, a: Seq<u64>, beta: nat)
        requires
            self.wf(),
            a.len() == self.degree,
            is_reduced(a, self.spec_modulus()),
            beta < self.degree,
        ensures
            self.forward_spec(a).len() == self.degree,
            self.forward_spec(a)[beta as int] as int == eval_upto(
                as_ints(a),
                self.root(self.log_degree as nat, beta),
                self.degree as nat,
            ) % self.spec_modulus(),
    {
        let big_l = self.log_degree as nat;
        self.lemma_fwd_from_to(a, 0);
        assert(self.fwd_to(a, 0) == a);
        self.lemma_fwd_to_shape(a, big_l);
        lemma2_to64();
        assert((big_l - big_l) as nat == 0);
        self.lemma_blocks(a, big_l, beta, 0);
        let x = strided(a, 0, 1, pow2(big_l));
        assert forall|k: int| 0 <= k < self.degree implies x[k] == as_ints(a)[k] by {}
        lemma_eval_prefix(x, as_ints(a), self.root(big_l, beta), self.degree as nat);
    }
}

impl NttContext {
    /// The point at which entry `beta` of the forward transform evaluates its
    /// input: `g^(1 + 2 rev(beta)) mod q`, a root of `x^N + 1`.
    pub closed spec fn eval_point(&self, beta: nat) -> int {
        self.root(self.log_degree as nat, beta)
    }

    /// The forward transform evaluates its input at roots of `x^N + 1`:
    /// entry `beta` is `sum_k a[k] c^k mod q` with `c = eval_point(beta)` and
    /// `c^N = -1 (mod q)`.
    pub proof fn lemma_forward_is_evaluation(&self, a: Seq<u64>, beta: nat)
        requires
            self.wf(),
            a.len() == self.spec_degree(),
            is_reduced(a, self.spec_modulus()),
            beta < self.spec_degree(),
        ensures
            self.forward_spec(a).len() == self.spec_degree(),
            self.forward_spec(a)[beta as int] as int == eval_upto(
                as_ints(a),
                self.eval_point(beta),
                self.spec_degree(),
            ) % self.spec_modulus(),
            power(self.eval_point(beta), self.spec_degree()) % self.spec_modulus()
                == self.spec_modulus() - 1,
            self.eval_point(beta) == power(
                self.spec_generator(),
                (1 + 2 * bit_rev(beta, self.spec_log_degree())) as nat,
            ) % self.spec_modulus(),
    {
        lemma2_to64();
        assert((self.log_degree - self.log_degree) as nat == 0);
        assert(self.root_exp(self.log_degree as nat, beta) == 1 * (1 + 2 * bit_rev(beta, self.log_degree as nat)));
        self.lemma_forward_eval(a, beta);
        self.lemma_root_final(beta);
    }
}

/// The transform-based negacyclic product equals the schoolbook one, for
/// every pair of vectors of `N` canonical residues.
pub proof fn lemma_convolution_agrees(ctx: &NttContext, a: Seq<u64>, b: Seq<u64>)
    requires
        ctx.wf(),
        a.len() == ctx.spec_degree(),
        b.len() == ctx.spec_degree(),
        is_reduced(a, ctx.spec_modulus()),
        is_reduced(b, ctx.spec_modulus()),
    ensures
        ntt_convolution_spec(*ctx, a, b) == negacyclic_spec(a, b, ctx.spec_modulus()),
{
    let q = ctx.spec_modulus();
    let n = ctx.degree as nat;
    ctx.lemma_wf_facts();
    let p = negacyclic_spec(a, b, q);
    let raw = Seq::new(a.len(), |i: int| nega_partial(a, b, i, a.len()));
    assert forall|k: int| 0 <= k < p.len() implies #[trigger] p[k] < q by {
        lemma_mod_bound(raw[k], q);
    }
    let fa = ctx.forward_spec(a);
    let fb = ctx.forward_spec(b);
    let fp = ctx.forward_spec(p);
    let pw = pointwise_spec(fa, fb, q);
    ctx.lemma_forward_eval(a, 0);
    ctx.lemma_forward_eval(p, 0);
    assert forall|beta: int| 0 <= beta < n implies #[trigger] fp[beta] == pw[beta] by {
        let c = ctx.root(ctx.log_degree as nat, beta as nat);
        ctx.lemma_forward_eval(a, beta as nat);
        ctx.lemma_forward_eval(b, beta as nat);
        ctx.lemma_forward_eval(p, beta as nat);
        ctx.lemma_root_final(beta as nat);
        assert forall|k: int| 0 <= k < n implies #[trigger] (as_ints(p)[k] % q) == raw[k] % q by {
            lemma_mod_bound(raw[k], q);
            lemma_mod_twice(raw[k], q);
        }
        lemma_eval_coeffs_mod(as_ints(p), raw, c, n, q);
        lemma_negacyclic_eval(a, b, c, q);
        let ea = eval_upto(as_ints(a), c, n);
        let eb = eval_upto(as_ints(b), c, n);
        lemma_mul_mod_noop(ea, eb, q);
        lemma_mod_bound(eval_upto(as_ints(p), c, n), q);
        lemma_mod_bound(fa[beta] * fb[beta], q);
    }
    assert(fp =~= pw);
    lemma_round_trip(ctx, p);
}

/// The Shoup companion of every entry of `table`.
fn shoup_table(class: &CongruenceClass, table: &Vec<u64>) -> (r: Vec<u64>)
    requires
        class.wf(),
        forall|i: int| 0 <= i < table@.len() ==> #[trigger] table@[i] < class.spec_q(),
    ensures
        r@.len() == table@.len(),
        forall|i: int|
            0 <= i < table@.len() ==> #[trigger] r@[i] == shoup_of(table@[i] as int, class.spec_q()),
{
    let mut r: Vec<u64> = Vec::new();
    let mut i: usize = 0;
    while i < table.len()
        invariant
            class.wf(),
            forall|j: int| 0 <= j < table@.len() ==> #[trigger] table@[j] < class.spec_q(),
            i <= table@.len(),
            r@.len() == i,
            forall|j: int|
                0 <= j < i ==> #[trigger] r@[j] == shoup_of(table@[j] as int, class.spec_q()),
        decreases table@.len() - i,
    {
        r.push(class.precompute_shoup(table[i]));
        i = i + 1;
    }
    r
}

/// Powers `b^0, ..., b^(n-1)` of `b = g` (or `b = g^(q-2)`, the inverse of
/// `g`, when `is_inverse`), placed in bit-reversed order over `log_n` bits.
fn compute_twiddle_factors(
    class: &CongruenceClass,
    g: u64,
    is_inverse: bool,
    n: usize,
    log_n: usize,
) -> (r: Vec<u64>)
    requires
        class.wf(),
        g < class.spec_q(),
        n == pow2(log_n as nat),
        pow2(log_n as nat) <= usize::MAX,
    ensures
        r@.len() == n,
        forall|i: int|
            0 <= i < n ==> #[trigger] r@[i] == power(
                if is_inverse {
                    power(g as int, (class.spec_q() - 2) as nat) % class.spec_q()
                } else {
                    g as int
                },
                bit_rev(i as nat, log_n as nat),
            ) % class.spec_q(),
{
    let q = class.q();
    let base = if is_inverse {
        class.modinv(g)
    } else {
        g
    };
    let ghost b = base as int;
    assert(base < q) by {
        if is_inverse {
            lemma_mod_bound(power(g as int, (q - 2) as nat), q as int);
        }
    }
    // base^i in natural order
    let mut direct: Vec<u64> = Vec::new();
    let mut acc: u64 = 1;
    let mut i: usize = 0;
    proof {
        lemma_small_mod(1, q as nat);
    }
    while i < n
        invariant
            class.wf(),
            q == class.spec_q(),
            base < q,
            b == base,
            i <= n,
            direct@.len() == i,
            acc == power(b, i as nat) % (q as int),
            forall|j: int| 0 <= j < i ==> #[trigger] direct@[j] == power(b, j as nat) % (q as int),
        decreases n - i,
    {
        direct.push(acc);
        proof {
            lemma_mul_mod_noop_left(power(b, i as nat), b, q as int);
            lemma_mul_is_commutative(power(b, i as nat), b);
        }
        acc = class.modmul(acc, base);
        i = i + 1;
    }
    let mut r: Vec<u64> = Vec::new();
    let mut k: usize = 0;
    while k < n
        invariant
            n == pow2(log_n as nat),
            pow2(log_n as nat) <= usize::MAX,
            direct@.len() == n,
            forall|j: int| 0 <= j < n ==> #[trigger] direct@[j] == power(b, j as nat) % (q as int),
            k <= n,
            r@.len() == k,
            forall|j: int|
                0 <= j < k ==> #[trigger] r@[j] == power(b, bit_rev(j as nat, log_n as nat)) % (
                q as int),
        decreases n - k,
    {
        let rev = bit_reverse(k, log_n);
        proof {
            lemma_bit_rev_bound(k as nat, log_n as nat);
        }
        r.push(direct[rev]);
        k = k + 1;
    }
    r
}

} // verus!
