//! Constant-modulus arithmetic: Barrett reduction and Shoup multiplication.

use vstd::arithmetic::div_mod::*;
use vstd::arithmetic::mul::*;
use vstd::arithmetic::power2::*;
use vstd::bits::*;
use vstd::prelude::*;

verus! {

/// Exclusive upper bound on a modulus: 2^63.
pub const MODULUS_BOUND: u64 = 0x8000_0000_0000_0000;

/// `b` raised to the power `e`, over the integers.
pub open spec fn power(b: int, e: nat) -> int
    decreases e,
{
    if e == 0 {
        1
    } else {
        b * power(b, (e - 1) as nat)
    }
}

/// The Shoup companion of `b` for modulus `q`: `floor(b * 2^64 / q)`.
pub open spec fn shoup_of(b: int, q: int) -> int {
    (b * pow2(64) as int) / q
}

/// The Barrett quotient estimate undershoots `x / q` by at most two, and the
/// intermediate product fits in 128 bits.
proof fn lemma_barrett_estimate(x: int, q: int, k: nat, mu: int, t1: int, t2: int)
    requires
        2 <= k,
        pow2((k - 1) as nat) <= q < pow2(k),
        0 <= x <= (q - 1) * (q - 1),
        mu == pow2(2 * k) as int / q,
        t1 == x / pow2((k - 2) as nat) as int,
        t2 == (t1 * mu) / pow2(k + 2) as int,
    ensures
        t1 * mu < q * pow2(k + 2),
        0 <= t2,
        t2 * q <= x < (t2 + 3) * q,
{
    let p = pow2((k - 2) as nat) as int;
    let qd = pow2(k + 2) as int;
    let d = pow2(2 * k) as int;
    let h = pow2((k - 1) as nat) as int;
    lemma_pow2_pos((k - 2) as nat);
    lemma_pow2_pos(k + 2);
    lemma_pow2_adds((k - 2) as nat, k + 2);
    assert(p * qd == d);
    lemma_pow2_unfold((k - 1) as nat);
    assert(h == 2 * p);
    lemma_pow2_adds(k, k);
    let pk = pow2(k) as int;
    assert(d == pk * pk);
    lemma_fundamental_div_mod(x, p);
    lemma_fundamental_div_mod(d, q);
    lemma_mod_pos_bound(x, p);
    lemma_mod_pos_bound(d, q);
    assert(x < q * q) by (nonlinear_arith)
        requires
            0 <= x <= (q - 1) * (q - 1),
            2 <= q,
    ;
    assert(q * q < d) by (nonlinear_arith)
        requires
            0 < q < pk,
            d == pk * pk,
    ;
    assert(0 <= t1) by {
        lemma_div_pos_is_pos(x, p);
    }
    assert(0 <= mu) by {
        lemma_div_pos_is_pos(d, q);
    }
    let m = t1 * mu;
    lemma_mul_nonnegative(t1, mu);
    lemma_fundamental_div_mod(m, qd);
    lemma_mod_pos_bound(m, qd);
    assert(0 <= t2) by {
        lemma_div_pos_is_pos(m, qd);
    }
    // t1 * p <= x and mu * q <= d
    assert(t1 * p <= x);
    assert(mu * q <= d);
    // the product bound: m * p * q <= x * d < q * q * d, so m < q * qd
    assert(m * p * q <= x * d) by (nonlinear_arith)
        requires
            m == t1 * mu,
            t1 * p <= x,
            mu * q <= d,
            0 <= t1,
            0 <= mu,
            0 < p,
            0 < q,
    ;
    assert(x * d < (q * q) * d) by {
        lemma_mul_strict_inequality(x, q * q, d);
    }
    assert((q * q) * d == (q * qd) * (p * q)) by (nonlinear_arith)
        requires
            d == p * qd,
    ;
    assert(m * (p * q) == m * p * q) by (nonlinear_arith);
    lemma_mul_strict_inequality_converse(m, q * qd, p * q);
    // lower end: t2 * q <= x
    assert(t2 * qd <= m);
    assert(t2 * q <= x) by (nonlinear_arith)
        requires
            t2 * qd <= m,
            m * p * q <= x * d,
            d == p * qd,
            0 < p,
            0 < q,
            0 < qd,
            0 <= t2,
    ;
    // upper end: x < (t2 + 3) * q
    lemma_mul_is_commutative(qd, t2);
    assert(m < (t2 + 1) * qd) by (nonlinear_arith)
        requires
            m == qd * t2 + m % qd,
            m % qd < qd,
            qd * t2 == t2 * qd,
    ;
    assert(q <= q * q) by (nonlinear_arith)
        requires
            2 <= q,
    ;
    assert(t1 * p > x - p);
    assert(mu * q > d - q);
    assert((t1 * p) * (mu * q) >= (x - p) * (d - q)) by (nonlinear_arith)
        requires
            t1 * p >= 0,
            t1 * p > x - p,
            mu * q > d - q,
            d - q > 0,
    ;
    assert((t2 + 1) * d * q > (t1 * p) * (mu * q)) by (nonlinear_arith)
        requires
            m < (t2 + 1) * qd,
            m == t1 * mu,
            d == p * qd,
            0 < p,
            0 < q,
    ;
    assert(x * q + p * d <= 2 * q * d) by (nonlinear_arith)
        requires
            x < q * q,
            q * q < d,
            2 * p <= q,
            0 < q,
            0 < d,
    ;
    assert(p * q > 0) by (nonlinear_arith)
        requires
            0 < p,
            0 < q,
    ;
    assert((t2 + 1) * d * q > (x - 2 * q) * d) by (nonlinear_arith)
        requires
            (t2 + 1) * d * q > (t1 * p) * (mu * q),
            (t1 * p) * (mu * q) >= (x - p) * (d - q),
            x * q + p * d <= 2 * q * d,
            p * q > 0,
    ;
    assert(x < (t2 + 3) * q) by (nonlinear_arith)
        requires
            (t2 + 1) * d * q > (x - 2 * q) * d,
            0 < d,
    ;
}

/// Shoup's quotient estimate undershoots `a * b / q` by at most one.
proof fn lemma_shoup_estimate(a: int, b: int, q: int, bp: int, t: int)
    requires
        0 <= a < pow2(64),
        0 <= b < q,
        bp == shoup_of(b, q),
        t == (a * bp) / pow2(64) as int,
    ensures
        0 <= t,
        0 <= bp < pow2(64),
        t * q <= a * b < (t + 2) * q,
{
    let w = pow2(64) as int;
    lemma_pow2_pos(64);
    assert(0 <= b * w) by (nonlinear_arith)
        requires
            0 <= b,
            0 < w,
    ;
    lemma_fundamental_div_mod(b * w, q);
    lemma_mod_pos_bound(b * w, q);
    lemma_div_pos_is_pos(b * w, q);
    assert(bp * q <= b * w);
    lemma_mul_strict_inequality(b, q, w);
    lemma_mul_is_commutative(bp, q);
    lemma_mul_is_commutative(w, q);
    lemma_mul_strict_inequality_converse(bp, w, q);
    assert(0 <= a * bp) by (nonlinear_arith)
        requires
            0 <= a,
            0 <= bp,
    ;
    lemma_fundamental_div_mod(a * bp, w);
    lemma_mod_pos_bound(a * bp, w);
    lemma_div_pos_is_pos(a * bp, w);
    assert(t * q <= a * b) by (nonlinear_arith)
        requires
            t * w <= a * bp,
            bp * q <= b * w,
            0 <= a,
            0 <= t,
            0 < w,
            0 < q,
    ;
    assert(bp * q > b * w - q);
    lemma_mul_is_commutative(w, t);
    assert(a * bp < (t + 1) * w) by (nonlinear_arith)
        requires
            a * bp == w * t + (a * bp) % w,
            (a * bp) % w < w,
            w * t == t * w,
    ;
    assert(a * b < (t + 2) * q) by (nonlinear_arith)
        requires
            a * bp < (t + 1) * w,
            bp * q > b * w - q,
            0 <= a < w,
            0 < q,
            0 < w,
    ;
}

/// `x` written as `c * q + r` with `0 <= r < q` has remainder `r`.
proof fn lemma_mod_from(x: int, q: int, c: int, r: int)
    requires
        0 < q,
        0 <= r < q,
        x == c * q + r,
    ensures
        x % q == r,
{
    lemma_fundamental_div_mod_converse_mod(x, q, c, r);
}

/// A product of two 64-bit values fits in 128 bits.
proof fn lemma_u64_product_fits(a: u64, b: u64)
    ensures
        (a as int) * (b as int) <= 0xffff_ffff_ffff_fffe_0000_0000_0000_0001,
{
    assert((a as int) * (b as int) <= 0xffff_ffff_ffff_ffff * 0xffff_ffff_ffff_ffff) by (nonlinear_arith)
        requires
            a <= 0xffff_ffff_ffff_ffffu64,
            b <= 0xffff_ffff_ffff_ffffu64,
    ;
}

/// Squaring the base halves the exponent.
pub proof fn lemma_power_square(b: int, m: nat)
    ensures
        power(b * b, m) == power(b, 2 * m),
    decreases m,
{
    if m > 0 {
        lemma_power_square(b, (m - 1) as nat);
        assert(power(b, (2 * m - 1) as nat) == b * power(b, (2 * m - 2) as nat));
        assert(power(b, 2 * m) == b * (b * power(b, (2 * m - 2) as nat)));
        lemma_mul_is_associative(b, b, power(b, (2 * m - 2) as nat));
    }
}

/// Reducing the base modulo `q` does not change the power modulo `q`.
pub proof fn lemma_power_mod(b: int, e: nat, q: int)
    requires
        0 < q,
    ensures
        power(b % q, e) % q == power(b, e) % q,
    decreases e,
{
    if e > 0 {
        lemma_power_mod(b, (e - 1) as nat, q);
        lemma_mul_mod_noop(b % q, power(b % q, (e - 1) as nat), q);
        lemma_mul_mod_noop(b, power(b, (e - 1) as nat), q);
        lemma_mod_twice(b, q);
    }
}

/// `power` of a product splits into a product of powers.
pub proof fn lemma_power_adds(b: int, e1: nat, e2: nat)
    ensures
        power(b, e1 + e2) == power(b, e1) * power(b, e2),
    decreases e1,
{
    if e1 > 0 {
        lemma_power_adds(b, (e1 - 1) as nat, e2);
        assert(power(b, e1 + e2) == b * power(b, (e1 - 1 + e2) as nat));
        lemma_mul_is_associative(b, power(b, (e1 - 1) as nat), power(b, e2));
    }
}

/// `power(b, e1 * e2) == power(power(b, e1), e2)`.
pub proof fn lemma_power_multiplies(b: int, e1: nat, e2: nat)
    ensures
        power(b, e1 * e2) == power(power(b, e1), e2),
    decreases e2,
{
    if e2 > 0 {
        lemma_power_multiplies(b, e1, (e2 - 1) as nat);
        assert(e1 * e2 == e1 + e1 * (e2 - 1) as nat) by (nonlinear_arith)
            requires
                e2 > 0,
        ;
        let m = (e2 - 1) as nat;
        let k = e1 * m;
        lemma_power_adds(b, e1, k);
        assert(e1 * e2 == e1 + k);
        assert(power(b, e1 * e2) == power(b, e1 + k));
        assert(power(b, k) == power(power(b, e1), m));
        assert(power(power(b, e1), e2) == power(b, e1) * power(power(b, e1), m));
    } else {
        assert(e1 * e2 == 0) by (nonlinear_arith)
            requires
                e2 == 0,
        ;
    }
}

/// One step of square-and-multiply keeps `acc * base^exp` fixed modulo `q`.
proof fn lemma_modexp_step(acc: int, base: int, exp: nat, q: int)
    requires
        0 < q,
    ensures
        ((if exp % 2 == 1 { (acc * base) % q } else { acc }) * power((base * base) % q, exp / 2))
            % q == (acc * power(base, exp)) % q,
{
    let m = exp / 2;
    let bb = (base * base) % q;
    lemma_power_mod(base * base, m, q);
    lemma_power_square(base, m);
    let pm = power(base, 2 * m);
    if exp % 2 == 1 {
        assert(exp == 2 * m + 1);
        assert(power(base, exp) == base * pm);
        lemma_mul_mod_noop((acc * base) % q, power(bb, m), q);
        lemma_mod_twice(acc * base, q);
        lemma_mul_mod_noop(acc * base, pm, q);
        lemma_mul_mod_noop_right(acc * base, power(bb, m), q);
        lemma_mul_mod_noop_right(acc * base, pm, q);
        lemma_mul_mod_noop_left(acc * base, power(bb, m), q);
        lemma_mul_is_associative(acc, base, pm);
    } else {
        assert(exp == 2 * m);
        lemma_mul_mod_noop_right(acc, power(bb, m), q);
        lemma_mul_mod_noop_right(acc, pm, q);
    }
}

/// Modular arithmetic for a fixed modulus `q`, with precomputed Barrett
/// parameters.
#[derive(Debug, Clone, Copy)]
pub struct CongruenceClass {
    mu: u128,
    q: u64,
    logq: u64,
}

impl CongruenceClass {
    /// The modulus.
    pub closed spec fn spec_q(&self) -> int {
        self.q as int
    }

    /// The Barrett parameters agree with the modulus: `logq` is the bit length
    /// of `q` and `mu = floor(2^(2 logq) / q)`.
    pub closed spec fn params_ok(&self) -> bool {
        &&& 2 <= self.logq <= 63
        &&& pow2((self.logq - 1) as nat) <= self.q < pow2(self.logq as nat)
        &&& self.mu == pow2((2 * self.logq) as nat) / (self.q as nat)
    }

    /// Well-formed: `2 <= q < 2^63` and the parameters agree with `q`.
    pub open spec fn wf(&self) -> bool {
        &&& 2 <= self.spec_q() < MODULUS_BOUND
        &&& self.params_ok()
    }

    /// Builds the arithmetic for modulus `q`.
    pub fn new(q: u64) -> (r: Self)
        requires
            2 <= q < MODULUS_BOUND,
        ensures
            r.wf(),
            r.spec_q() == q,
    {
        // bit length of q, and 2^logq alongside it
        let mut logq: u64 = 0;
        let mut p: u64 = 1;
        proof {
            lemma2_to64();
            lemma2_to64_rest();
        }
        while p <= q
            invariant
                0 <= logq <= 63,
                p as nat == pow2(logq as nat),
                p <= MODULUS_BOUND,
                logq >= 1 ==> pow2((logq - 1) as nat) <= q,
                2 <= q < MODULUS_BOUND,
            decreases 64 - logq,
        {
            proof {
                lemma_pow2_unfold((logq + 1) as nat);
                lemma2_to64();
                lemma2_to64_rest();
                if logq == 63 {
                    assert(p == MODULUS_BOUND);
                }
                if logq < 62 {
                    lemma_pow2_strictly_increases(logq as nat, 62);
                }
            }
            p = p * 2;
            logq = logq + 1;
        }
        proof {
            lemma2_to64();
            lemma2_to64_rest();
            lemma_pow2_adds(logq as nat, logq as nat);
            lemma_pow2_unfold(logq as nat);
        }
        assert(logq >= 2) by {
            if logq < 2 {
                assert(logq == 0 || logq == 1);
            }
        }
        assert((p as u128) * (p as u128) <= 0x4000_0000_0000_0000_0000_0000_0000_0000u128) by (nonlinear_arith)
            requires
                p <= MODULUS_BOUND,
        ;
        let pp: u128 = (p as u128) * (p as u128);
        let mu: u128 = pp / (q as u128);
        assert(pp == pow2((2 * logq) as nat));
        CongruenceClass { q, mu, logq }
    }

    /// The modulus.
    pub fn q(&self) -> (r: u64)
        ensures
            r == self.spec_q(),
    {
        self.q
    }
    /// `floor(b * 2^64 / q)`, the companion of `b` for `modmul_shoup`.
    pub fn precompute_shoup(&self, b: u64) -> (r: u64)
        requires
            self.wf(),
            b < self.spec_q(),
        ensures
            r == shoup_of(b as int, self.spec_q()),
    {
        proof {
            lemma2_to64();
            lemma_shoup_estimate(0, b as int, self.q as int, shoup_of(b as int, self.q as int), 0);
        }
        let wide: u128 = b as u128;
        assert(wide << 64u128 == wide * 0x1_0000_0000_0000_0000u128) by (bit_vector)
            requires
                wide < 0x1_0000_0000_0000_0000u128,
        ;
        let shifted: u128 = wide << 64u128;
        (shifted / (self.q as u128)) as u64
    }

    /// `(a * b) mod q` by Shoup's method, given `b_prec = precompute_shoup(b)`.
    pub fn modmul_shoup(&self, a: u64, b: u64, b_prec: u64) -> (r: u64)
        requires
            self.wf(),
            b < self.spec_q(),
            b_prec == shoup_of(b as int, self.spec_q()),
        ensures
            r == (a as int * b as int) % self.spec_q(),
    {
        proof {
            lemma_u64_product_fits(a, b);
            lemma_u64_product_fits(a, b_prec);
        }
        let mul: u128 = (a as u128) * (b as u128);
        let prod: u128 = (a as u128) * (b_prec as u128);
        let t: u128 = prod >> 64u128;
        proof {
            lemma2_to64();
            lemma_u128_shr_is_div(prod, 64u128);
            lemma_shoup_estimate(a as int, b as int, self.q as int, b_prec as int, t as int);
            assert(t * (self.q as int) < 0x1_0000_0000_0000_0000_0000_0000_0000_0000) by (nonlinear_arith)
                requires
                    t * (self.q as int) <= mul,
                    mul == a as int * b as int,
                    a < 0x1_0000_0000_0000_0000,
                    b < 0x8000_0000_0000_0000,
            ;
        }
        let tmp: u128 = t * (self.q as u128);
        assert(mul - tmp < 2 * self.q) by (nonlinear_arith)
            requires
                mul < (t + 2) * (self.q as int),
                tmp == t * (self.q as int),
        ;
        let r: u64 = (mul - tmp) as u64;
        proof {
            if r < self.q {
                lemma_mod_from(mul as int, self.q as int, t as int, r as int);
            } else {
                assert((t + 1) * (self.q as int) == t * (self.q as int) + self.q) by (nonlinear_arith);
                lemma_mod_from(mul as int, self.q as int, t + 1, r - self.q);
            }
        }
        if r < self.q {
            r
        } else {
            r - self.q
        }
    }

    /// `(a * b) mod q` by Shoup's method with both products kept to their
    /// low 64 bits; exact because the true difference lies in `[0, 2q)`.
    pub fn modmul_shoup_as64(&self, a: u64, b: u64, b_prec: u64) -> (r: u64)
        requires
            self.wf(),
            b < self.spec_q(),
            b_prec == shoup_of(b as int, self.spec_q()),
        ensures
            r == (a as int * b as int) % self.spec_q(),
    {
        let ghost w: int = 0x1_0000_0000_0000_0000int;
        proof {
            lemma_u64_product_fits(a, b_prec);
        }
        let mul = a.wrapping_mul(b);
        let prod: u128 = (a as u128) * (b_prec as u128);
        let t128: u128 = prod >> 64u128;
        proof {
            lemma2_to64();
            lemma_u128_shr_is_div(prod, 64u128);
            lemma_shoup_estimate(a as int, b as int, self.q as int, b_prec as int, t128 as int);
            assert(t128 < w) by (nonlinear_arith)
                requires
                    t128 * (self.q as int) <= a as int * b as int,
                    a < w,
                    b < self.q,
                    0 < self.q,
            ;
        }
        let t = t128 as u64;
        let tmp = t.wrapping_mul(self.q);
        let r = mul.wrapping_sub(tmp);
        proof {
            let x = a as int * b as int;
            let y = t as int * self.q as int;
            assert(0 <= x - y < 2 * self.q) by (nonlinear_arith)
                requires
                    y <= x,
                    x < (t + 2) * (self.q as int),
                    y == t * (self.q as int),
            ;
            lemma_mod_bound(x, w);
            lemma_mod_bound(y, w);
            lemma_sub_mod_noop(x, y, w);
            assert(mul as int == x % w);
            assert(tmp as int == y % w);
            if (x % w) - (y % w) < 0 {
                lemma_mod_from((x % w) - (y % w), w, -1, (x % w) - (y % w) + w);
            } else {
                lemma_mod_from((x % w) - (y % w), w, 0, (x % w) - (y % w));
            }
            lemma_mod_from(x - y, w, 0, x - y);
            assert(r as int == x - y);
            if r < self.q {
                lemma_mod_from(x, self.q as int, t as int, r as int);
            } else {
                assert((t + 1) * (self.q as int) == t * (self.q as int) + self.q) by (nonlinear_arith);
                lemma_mod_from(x, self.q as int, t + 1, r - self.q);
            }
        }
        if r < self.q {
            r
        } else {
            r - self.q
        }
    }

    /// In-place `modmul_shoup`.
    pub fn modmul_shoup_eq(&self, a: &mut u64, b: u64, b_prec: u64)
        requires
            self.wf(),
            b < self.spec_q(),
            b_prec == shoup_of(b as int, self.spec_q()),
        ensures
            *final(a) == (*old(a) as int * b as int) % self.spec_q(),
    {
        *a = self.modmul_shoup(*a, b, b_prec);
    }

    /// Barrett reduction of a product of two canonical residues.
    fn reduce(&self, mul: u128) -> (r: u64)
        requires
            self.wf(),
            mul <= (self.spec_q() - 1) * (self.spec_q() - 1),
        ensures
            r == mul as int % self.spec_q(),
    {
        let k = self.logq;
        let t1: u128 = mul >> ((k - 2) as u128);
        proof {
            lemma2_to64();
            lemma2_to64_rest();
            lemma_u128_shr_is_div(mul, (k - 2) as u128);
            lemma_barrett_estimate(
                mul as int,
                self.q as int,
                k as nat,
                self.mu as int,
                t1 as int,
                (t1 * self.mu) / pow2((k + 2) as nat) as int,
            );
            if k + 2 < 65 {
                lemma_pow2_strictly_increases((k + 2) as nat, 65);
            }
            lemma_pow2_adds(63, 65);
            lemma_pow2_adds(64, 64);
            assert(pow2(64) * pow2(64) == 0x1_0000_0000_0000_0000_0000_0000_0000_0000) by (nonlinear_arith)
                requires
                    pow2(64) == 0x1_0000_0000_0000_0000,
            ;
            assert((self.q as int) * pow2((k + 2) as nat) <= pow2(63) * pow2(65)) by (nonlinear_arith)
                requires
                    self.q < pow2(63),
                    pow2((k + 2) as nat) <= pow2(65),
            ;
        }
        let m: u128 = t1 * self.mu;
        let t2: u128 = m >> ((k + 2) as u128);
        proof {
            lemma_u128_shr_is_div(m, (k + 2) as u128);
        }
        let mut r: u128 = mul - t2 * (self.q as u128);
        assert(r < 3 * self.q) by (nonlinear_arith)
            requires
                mul < (t2 + 3) * (self.q as int),
                r == mul - t2 * (self.q as int),
        ;
        let ghost mut c: int = t2 as int;
        assert(r == mul - c * (self.q as int));
        if r >= self.q as u128 {
            r = r - self.q as u128;
            proof {
                assert((c + 1) * (self.q as int) == c * (self.q as int) + self.q) by (nonlinear_arith);
                c = c + 1;
            }
        }
        if r >= self.q as u128 {
            r = r - self.q as u128;
            proof {
                assert((c + 1) * (self.q as int) == c * (self.q as int) + self.q) by (nonlinear_arith);
                c = c + 1;
            }
        }
        proof {
            lemma_mod_from(mul as int, self.q as int, c, r as int);
        }
        r as u64
    }

    /// `(a * b) mod q` by Barrett reduction.
    pub fn modmul(&self, a: u64, b: u64) -> (r: u64)
        requires
            self.wf(),
            a < self.spec_q(),
            b < self.spec_q(),
        ensures
            r == (a as int * b as int) % self.spec_q(),
    {
        proof {
            lemma_mul_inequality(a as int, self.q - 1, b as int);
            lemma_mul_inequality(b as int, self.q - 1, self.q - 1);
            lemma_mul_is_commutative(b as int, self.q - 1);
        }
        proof {
            lemma_u64_product_fits(a, b);
        }
        self.reduce((a as u128) * (b as u128))
    }

    /// `a^2 mod q`.
    pub fn modsquare(&self, a: u64) -> (r: u64)
        requires
            self.wf(),
            a < self.spec_q(),
        ensures
            r == (a as int * a as int) % self.spec_q(),
    {
        proof {
            lemma_mul_inequality(a as int, self.q - 1, a as int);
            lemma_mul_inequality(a as int, self.q - 1, self.q - 1);
            lemma_mul_is_commutative(a as int, self.q - 1);
        }
        proof {
            lemma_u64_product_fits(a, a);
        }
        self.reduce((a as u128) * (a as u128))
    }

    /// In-place `modmul`.
    pub fn modmul_eq(&self, a: &mut u64, b: u64)
        requires
            self.wf(),
            *old(a) < self.spec_q(),
            b < self.spec_q(),
        ensures
            *final(a) == (*old(a) as int * b as int) % self.spec_q(),
    {
        *a = self.modmul(*a, b);
    }

    /// In-place `modsquare`.
    pub fn modsquare_eq(&self, a: &mut u64)
        requires
            self.wf(),
            *old(a) < self.spec_q(),
        ensures
            *final(a) == (*old(a) as int * *old(a) as int) % self.spec_q(),
    {
        *a = self.modsquare(*a);
    }

    /// `(a + b) mod q`.
    pub fn modadd(&self, a: u64, b: u64) -> (r: u64)
        requires
            self.wf(),
            a < self.spec_q(),
            b < self.spec_q(),
        ensures
            r == (a as int + b as int) % self.spec_q(),
    {
        let t = a + b;
        if t < self.q {
            proof {
                lemma_mod_from(t as int, self.q as int, 0, t as int);
            }
            t
        } else {
            proof {
                lemma_mod_from(t as int, self.q as int, 1, t - self.q);
            }
            t - self.q
        }
    }

    /// In-place `modadd`.
    pub fn modadd_eq(&self, a: &mut u64, b: u64)
        requires
            self.wf(),
            *old(a) < self.spec_q(),
            b < self.spec_q(),
        ensures
            *final(a) == (*old(a) as int + b as int) % self.spec_q(),
    {
        *a = self.modadd(*a, b);
    }

    /// `(a - b) mod q`.
    pub fn modsub(&self, a: u64, b: u64) -> (r: u64)
        requires
            self.wf(),
            a < self.spec_q(),
            b < self.spec_q(),
        ensures
            r == (a as int - b as int) % self.spec_q(),
    {
        if a >= b {
            proof {
                lemma_mod_from(a - b, self.q as int, 0, a - b);
            }
            a - b
        } else {
            proof {
                lemma_mod_from(a - b, self.q as int, -1, self.q + a - b);
            }
            (self.q + a) - b
        }
    }

    /// In-place `modsub`.
    pub fn modsub_eq(&self, a: &mut u64, b: u64)
        requires
            self.wf(),
            *old(a) < self.spec_q(),
            b < self.spec_q(),
        ensures
            *final(a) == (*old(a) as int - b as int) % self.spec_q(),
    {
        *a = self.modsub(*a, b);
    }

    /// `(-a) mod q`; zero maps to zero.
    pub fn modneg(&self, a: u64) -> (r: u64)
        requires
            self.wf(),
            a < self.spec_q(),
        ensures
            r == (-(a as int)) % self.spec_q(),
    {
        if a == 0 {
            proof {
                lemma_mod_from(0, self.q as int, 0, 0);
            }
            0
        } else {
            proof {
                lemma_mod_from(-(a as int), self.q as int, -1, self.q - a);
            }
            self.q - a
        }
    }

    /// In-place `modneg`.
    pub fn modneg_eq(&self, a: &mut u64)
        requires
            self.wf(),
            *old(a) < self.spec_q(),
        ensures
            *final(a) == (-(*old(a) as int)) % self.spec_q(),
    {
        *a = self.modneg(*a);
    }

    /// `a^e mod q` by square-and-multiply over the bits of `e`, low to high.
    pub fn modexp(&self, a: u64, e: u64) -> (r: u64)
        requires
            self.wf(),
            a < self.spec_q(),
        ensures
            r == power(a as int, e as nat) % self.spec_q(),
    {
        let mut base = a;
        let mut exp = e;
        let mut result: u64 = 1;
        proof {
            lemma_mod_from(1, self.q as int, 0, 1);
            lemma_mul_mod_noop_left(1, power(a as int, e as nat), self.q as int);
        }
        while exp > 0
            invariant
                self.wf(),
                base < self.spec_q(),
                result < self.spec_q(),
                (result as int * power(base as int, exp as nat)) % self.spec_q()
                    == power(a as int, e as nat) % self.spec_q(),
            decreases exp,
        {
            proof {
                lemma_modexp_step(result as int, base as int, exp as nat, self.q as int);
            }
            if exp % 2 == 1 {
                result = self.modmul(result, base);
            }
            base = self.modsquare(base);
            exp = exp / 2;
        }
        proof {
            lemma_mod_from(result as int, self.q as int, 0, result as int);
        }
        result
    }

    /// In-place `modexp`.
    pub fn modexp_eq(&self, a: &mut u64, e: u64)
        requires
            self.wf(),
            *old(a) < self.spec_q(),
        ensures
            *final(a) == power(*old(a) as int, e as nat) % self.spec_q(),
    {
        *a = self.modexp(*a, e);
    }

    /// Fermat inverse `a^(q-2) mod q`; for prime `q` and nonzero `a` this is
    /// the inverse of `a`.
    pub fn modinv(&self, a: u64) -> (r: u64)
        requires
            self.wf(),
            a < self.spec_q(),
        ensures
            r == power(a as int, (self.spec_q() - 2) as nat) % self.spec_q(),
    {
        self.modexp(a, self.q - 2)
    }

    /// In-place `modinv`.
    pub fn modinv_eq(&self, a: &mut u64)
        requires
            self.wf(),
            *old(a) < self.spec_q(),
        ensures
            *final(a) == power(*old(a) as int, (self.spec_q() - 2) as nat) % self.spec_q(),
    {
        *a = self.modinv(*a);
    }
}

} // verus!
