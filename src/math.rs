//! Scalar modular helpers and the number theory behind a transform: prime
//! search on the residue class `1 mod 2N`, primitive roots and generators.

use crate::congruence::{
    lemma_power_adds, lemma_power_mod, lemma_power_multiplies, power, CongruenceClass, MODULUS_BOUND,
};
use vstd::arithmetic::div_mod::*;
use vstd::arithmetic::mul::*;
use vstd::arithmetic::power2::*;
use vstd::bits::*;
use vstd::prelude::*;

verus! {

/// `n` is prime.
pub open spec fn prime(n: nat) -> bool {
    &&& n >= 2
    &&& forall|d: nat| 2 <= d < n ==> #[trigger] (n % d) != 0
}

/// The product of `p^e` over the pairs `(p, e)` of `f`.
pub open spec fn factor_product(f: Seq<(usize, usize)>) -> int
    decreases f.len(),
{
    if f.len() == 0 {
        1
    } else {
        power(f.last().0 as int, f.last().1 as nat) * factor_product(f.drop_last())
    }
}

/// `f` lists prime powers whose product is `n`.
pub open spec fn is_prime_factorization(n: nat, f: Seq<(usize, usize)>) -> bool {
    &&& forall|i: int| 0 <= i < f.len() ==> prime(#[trigger] f[i].0 as nat) && f[i].1 >= 1
    &&& factor_product(f) == n
}

/// `r` passes the primitive-root test for prime `q` against the prime
/// factors listed in `f`: `r^((q-1)/p) != 1 (mod q)` for each of them.
pub open spec fn passes_root_test(r: int, q: int, f: Seq<(usize, usize)>) -> bool {
    forall|i: int|
        0 <= i < f.len() ==> #[trigger] power(r, ((q - 1) / (f[i].0 as int)) as nat) % q != 1
}

/// `r` passes the test against `f` and `r^((q-1)/2) = -1 (mod q)`.
pub open spec fn root_candidate(r: int, q: int, f: Seq<(usize, usize)>) -> bool {
    &&& passes_root_test(r, q, f)
    &&& power(r, ((q - 1) / 2) as nat) % q == q - 1
}

/// `r` is the least primitive root of `q`, as certified against a prime
/// factorization of `q - 1`.
pub open spec fn is_least_primitive_root(r: int, q: int) -> bool {
    &&& 2 <= r < q
    &&& exists|f: Seq<(usize, usize)>|
        is_prime_factorization((q - 1) as nat, f) && root_candidate(r, q, f) && (forall|s: int|
            2 <= s < r ==> !#[trigger] root_candidate(s, q, f))
}

/// `r` in `[2, q)` is a primitive root of `q`: `r^((q-1)/2) = -1` and
/// `r^((q-1)/p) != 1 (mod q)` for every prime `p` dividing `q - 1`.
pub open spec fn is_primitive_root(r: int, q: int) -> bool {
    &&& 2 <= r < q
    &&& power(r, ((q - 1) / 2) as nat) % q == q - 1
    &&& forall|p: nat|
        #[trigger] prime(p) && (q - 1) % (p as int) == 0 ==> power(r, ((q - 1) / (p as int)) as nat)
            % q != 1
}

/// `q` has a primitive root in `[2, q)` (true of every odd prime).
pub open spec fn has_primitive_root(q: int) -> bool {
    exists|r: int| is_primitive_root(r, q)
}

/// Every prime listed in a factorization of `n` divides `n`.
proof fn lemma_factor_divides(n: nat, f: Seq<(usize, usize)>)
    requires
        is_prime_factorization(n, f),
    ensures
        forall|i: int| 0 <= i < f.len() ==> #[trigger] (n as int % (f[i].0 as int)) == 0,
    decreases f.len(),
{
    if f.len() > 0 {
        let g = f.drop_last();
        let last = f.last();
        let pe = power(last.0 as int, last.1 as nat);
        let rest = factor_product(g);
        assert(is_prime_factorization(rest as nat, g)) by {
            assert forall|i: int| 0 <= i < g.len() implies prime(#[trigger] g[i].0 as nat) && g[i].1 >= 1 by {
                assert(g[i] == f[i]);
            }
            lemma_rest_nonneg(g);
        }
        lemma_factor_divides(rest as nat, g);
        assert forall|i: int| 0 <= i < f.len() implies #[trigger] (n as int % (f[i].0 as int)) == 0 by {
            let p = f[i].0 as int;
            assert(prime(f[i].0 as nat));
            if i == f.len() - 1 {
                let pm = power(p, (last.1 - 1) as nat);
                assert(pe == p * pm);
                assert(n == pm * rest * p) by (nonlinear_arith)
                    requires
                        n == pe * rest,
                        pe == p * pm,
                ;
                lemma_mod_multiples_basic(pm * rest, p);
            } else {
                assert(g[i] == f[i]);
                assert(rest % p == 0);
                lemma_fundamental_div_mod(rest, p);
                assert(n == pe * (rest / p) * p) by (nonlinear_arith)
                    requires
                        n == pe * rest,
                        rest == p * (rest / p) + 0,
                ;
                lemma_mod_multiples_basic(pe * (rest / p), p);
            }
        }
    }
}

/// A product of prime powers is positive.
proof fn lemma_rest_nonneg(g: Seq<(usize, usize)>)
    requires
        forall|i: int| 0 <= i < g.len() ==> prime(#[trigger] g[i].0 as nat),
    ensures
        factor_product(g) >= 1,
    decreases g.len(),
{
    if g.len() > 0 {
        let h = g.drop_last();
        assert forall|i: int| 0 <= i < h.len() implies prime(#[trigger] h[i].0 as nat) by {
            assert(h[i] == g[i]);
        }
        lemma_rest_nonneg(h);
        assert(prime(g[g.len() - 1].0 as nat));
        lemma_power_pos(g.last().0 as int, g.last().1 as nat);
        let pe = power(g.last().0 as int, g.last().1 as nat);
        let fh = factor_product(h);
        assert(factor_product(g) == pe * fh);
        assert(pe * fh >= 1) by (nonlinear_arith)
            requires
                pe >= 1,
                fh >= 1,
        ;
    }
}

/// A positive base has positive powers.
proof fn lemma_power_pos(b: int, e: nat)
    requires
        b >= 1,
    ensures
        power(b, e) >= 1,
    decreases e,
{
    if e > 0 {
        lemma_power_pos(b, (e - 1) as nat);
        let p = power(b, (e - 1) as nat);
        assert(b * p >= 1) by (nonlinear_arith)
            requires
                b >= 1,
                p >= 1,
        ;
    }
}

/// Against a complete factorization of `q - 1`, every primitive root is a
/// candidate.
proof fn lemma_primitive_is_candidate(r: int, q: int, f: Seq<(usize, usize)>)
    requires
        q >= 2,
        is_prime_factorization((q - 1) as nat, f),
        is_primitive_root(r, q),
    ensures
        root_candidate(r, q, f),
{
    lemma_factor_divides((q - 1) as nat, f);
    assert forall|i: int| 0 <= i < f.len() implies #[trigger] power(r, ((q - 1) / (f[i].0 as int)) as nat) % q != 1 by {
        let p = f[i].0 as nat;
        assert(prime(p));
        assert((q - 1) % (p as int) == 0);
    }
}

/// Relies on primal::is_prime, a deterministic Miller-Rabin test that is
/// exact on every u64.
#[verifier::external_body]
pub(crate) fn check_prime(n: u64) -> (r: bool)
    ensures
        r == prime(n as nat),
{
    primal::is_prime(n)
}

/// A prime sieve of the outside crate.
#[verifier::external_type_specification]
#[verifier::external_body]
pub struct ExSieve(primal::Sieve);

/// The largest number a sieve knows about (`Sieve::upper_bound`).
pub uninterp spec fn sieve_bound(s: primal::Sieve) -> nat;

/// Relies on primal::Sieve::new, which sieves the primes up to at least
/// `limit`.
#[verifier::external_body]
fn new_sieve(limit: usize) -> (r: primal::Sieve)
    ensures
        sieve_bound(r) >= limit,
{
    primal::Sieve::new(limit)
}

/// Relies on primal::Sieve::factor: an `Ok` result holds `(prime, exponent)`
/// pairs whose product is `n`, and every `n` in `[1, U^2]` is fully factored,
/// `U` the sieve's bound.
#[verifier::external_body]
fn sieve_factor(sieve: &primal::Sieve, n: usize) -> (r: Result<Vec<(usize, usize)>, (usize, Vec<(usize, usize)>)>)
    ensures
        r is Ok ==> is_prime_factorization(n as nat, r->Ok_0@),
        1 <= n <= sieve_bound(*sieve) * sieve_bound(*sieve) ==> r is Ok,
{
    sieve.factor(n)
}

/// `r` is the first prime at or above `start` on the progression
/// `start, start + m, ...` below 2^63, or `None` when that stretch holds no
/// prime.
pub open spec fn first_prime_up(start: int, m: int, r: Option<u64>) -> bool {
    match r {
        Some(p) => {
            &&& start <= p < MODULUS_BOUND
            &&& (p - start) % m == 0
            &&& prime(p as nat)
            &&& forall|c: int|
                start <= c < p && (c - start) % m == 0 ==> !#[trigger] prime(c as nat)
        },
        None => forall|c: int|
            start <= c < MODULUS_BOUND && (c - start) % m == 0 ==> !#[trigger] prime(c as nat),
    }
}

/// `r` is the first prime at or below `start` on the progression
/// `start, start - m, ...`, or `None` when that progression holds no prime.
pub open spec fn first_prime_down(start: int, m: int, r: Option<u64>) -> bool {
    match r {
        Some(p) => {
            &&& p <= start
            &&& (start - p) % m == 0
            &&& prime(p as nat)
            &&& forall|c: int|
                p < c <= start && (start - c) % m == 0 ==> !#[trigger] prime(c as nat)
        },
        None => forall|c: int|
            0 <= c <= start && (start - c) % m == 0 ==> !#[trigger] prime(c as nat),
    }
}

/// Stepping by `m` from a multiple of `m` meets no multiple before the next.
proof fn lemma_step(x: int, m: int)
    requires
        m > 0,
        x % m == 0,
    ensures
        (x + m) % m == 0,
        forall|d: int| 0 < d < m ==> #[trigger] ((x + d) % m) == d,
{
    lemma_fundamental_div_mod(x, m);
    assert(x + m == (x / m + 1) * m + 0) by (nonlinear_arith)
        requires
            x == m * (x / m) + 0,
    ;
    lemma_fundamental_div_mod_converse_mod(x + m, m, x / m + 1, 0);
    assert forall|d: int| 0 < d < m implies #[trigger] ((x + d) % m) == d by {
        assert(x + d == (x / m) * m + d) by (nonlinear_arith)
            requires
                x == m * (x / m) + 0,
        ;
        lemma_fundamental_div_mod_converse_mod(x + d, m, x / m, d);
    }
}

/// A value a multiple of `m` away from a value `1 mod m` is `1 mod m`.
proof fn lemma_same_class(start: int, p: int, m: int)
    requires
        m >= 2,
        start % m == 1,
        (p - start) % m == 0 || (start - p) % m == 0,
    ensures
        p % m == 1,
{
    lemma_small_mod(1, m as nat);
    if (p - start) % m == 0 {
        lemma_add_mod_noop(start, p - start, m);
    } else {
        lemma_sub_mod_noop(start, start - p, m);
        lemma_small_mod(1, m as nat);
    }
}

/// `2^logq + 1` and `2^logq + 1 - m` are `1 mod m` when `m` divides `2^logq`.
proof fn lemma_start_class(e: int, m: int)
    requires
        m >= 2,
        e % m == 0,
    ensures
        (e + 1) % m == 1,
        (e + 1 - m) % m == 1,
{
    lemma_small_mod(1, m as nat);
    lemma_add_mod_noop(e, 1, m);
    lemma_mod_sub_multiples_vanish(e + 1, m);
}

/// Walks `start, start + m, ...` until a prime or the bound 2^63.
fn search_up(start: u64, m: u64) -> (r: Option<u64>)
    requires
        1 <= m <= MODULUS_BOUND,
    ensures
        first_prime_up(start as int, m as int, r),
{
    if start >= MODULUS_BOUND {
        return None;
    }
    let mut q = start;
    proof {
        lemma_fundamental_div_mod_converse_mod(0, m as int, 0, 0);
    }
    loop
        invariant
            1 <= m <= MODULUS_BOUND,
            start <= q < MODULUS_BOUND,
            (q - start) % (m as int) == 0,
            forall|c: int|
                start <= c < q && (c - start) % (m as int) == 0 ==> !#[trigger] prime(c as nat),
        decreases MODULUS_BOUND - q,
    {
        if check_prime(q) {
            return Some(q);
        }
        proof {
            lemma_step(q - start, m as int);
            assert forall|c: int|
                start <= c < q + m && (c - start) % (m as int) == 0 implies !#[trigger] prime(
                c as nat,
            ) by {
                if q < c {
                    assert((q - start + (c - q)) % (m as int) == c - q);
                }
            }
        }
        if q >= MODULUS_BOUND - m {
            return None;
        }
        q = q + m;
    }
}

/// Walks `start, start - m, ...` until a prime or the values run below 2.
fn search_down(start: u64, m: u64) -> (r: Option<u64>)
    requires
        1 <= m <= MODULUS_BOUND,
    ensures
        first_prime_down(start as int, m as int, r),
{
    let mut q = start;
    proof {
        lemma_fundamental_div_mod_converse_mod(0, m as int, 0, 0);
    }
    loop
        invariant
            1 <= m <= MODULUS_BOUND,
            q <= start,
            (start - q) % (m as int) == 0,
            forall|c: int|
                q < c <= start && (start - c) % (m as int) == 0 ==> !#[trigger] prime(c as nat),
        decreases q,
    {
        if check_prime(q) {
            return Some(q);
        }
        proof {
            lemma_step(start - q, m as int);
            assert forall|c: int|
                q - m < c <= start && (start - c) % (m as int) == 0 implies !#[trigger] prime(
                c as nat,
            ) by {
                if c < q {
                    assert((start - q + (q - c)) % (m as int) == q - c);
                }
            }
        }
        if q < m + 2 {
            return None;
        }
        q = q - m;
    }
}

/// The first prime on `2^logq + 1, 2^logq + 1 + 2n, ...`.
pub fn find_first_prime_up(logq: usize, n: usize) -> (r: Option<u64>)
    requires
        1 <= logq <= 62,
        1 <= n <= 0x2000_0000_0000_0000,
    ensures
        first_prime_up(pow2(logq as nat) as int + 1, 2 * n as int, r),
        r is Some && pow2(logq as nat) as int % (2 * n as int) == 0 ==> r->Some_0 as int % (2 * n as int) == 1,
{
    let m: u64 = (n as u64) * 2;
    proof {
        lemma_u64_pow2_no_overflow(logq as nat);
        lemma_u64_shl_is_mul(1, logq as u64);
        lemma_pow2_strictly_increases(logq as nat, 63);
        lemma2_to64_rest();
    }
    let start: u64 = (1u64 << (logq as u64)) + 1;
    let r = search_up(start, m);
    proof {
        if r is Some && pow2(logq as nat) as int % (2 * n as int) == 0 {
            lemma_start_class(pow2(logq as nat) as int, 2 * n as int);
            lemma_same_class(start as int, r->Some_0 as int, 2 * n as int);
        }
    }
    r
}

/// The next prime after `prev_q` on its progression with step `2n`.
pub fn find_next_prime_up(prev_q: u64, n: usize) -> (r: Option<u64>)
    requires
        1 <= n <= 0x2000_0000_0000_0000,
        prev_q < MODULUS_BOUND,
    ensures
        first_prime_up(prev_q as int + 2 * n as int, 2 * n as int, r),
        r is Some && prev_q as int % (2 * n as int) == 1 ==> r->Some_0 as int % (2 * n as int) == 1,
{
    let m: u64 = (n as u64) * 2;
    let r = search_up(prev_q + m, m);
    proof {
        if r is Some && prev_q as int % (2 * n as int) == 1 {
            lemma_mod_add_multiples_vanish(prev_q as int, 2 * n as int);
            lemma_same_class(prev_q + m, r->Some_0 as int, 2 * n as int);
        }
    }
    r
}

/// The first prime on `2^logq + 1 - 2n, 2^logq + 1 - 4n, ...`.
pub fn find_first_prime_down(logq: usize, n: usize) -> (r: Option<u64>)
    requires
        1 <= logq <= 62,
        1 <= n,
        2 * n <= pow2(logq as nat),
    ensures
        first_prime_down(pow2(logq as nat) as int + 1 - 2 * n as int, 2 * n as int, r),
        r is Some && pow2(logq as nat) as int % (2 * n as int) == 0 ==> r->Some_0 as int % (2 * n as int) == 1,
{
    proof {
        lemma_u64_pow2_no_overflow(logq as nat);
        lemma_u64_shl_is_mul(1, logq as u64);
        lemma_pow2_strictly_increases(logq as nat, 63);
        lemma2_to64_rest();
    }
    let m: u64 = (n as u64) * 2;
    let start: u64 = (1u64 << (logq as u64)) + 1 - m;
    let r = search_down(start, m);
    proof {
        if r is Some && pow2(logq as nat) as int % (2 * n as int) == 0 {
            lemma_start_class(pow2(logq as nat) as int, 2 * n as int);
            lemma_same_class(start as int, r->Some_0 as int, 2 * n as int);
        }
    }
    r
}

/// The next prime below `prev_q` on its progression with step `2n`.
pub fn find_next_prime_down(prev_q: u64, n: usize) -> (r: Option<u64>)
    requires
        1 <= n <= 0x2000_0000_0000_0000,
    ensures
        prev_q >= 2 * n ==> first_prime_down(prev_q as int - 2 * n as int, 2 * n as int, r),
        prev_q < 2 * n ==> r is None,
        r is Some && prev_q as int % (2 * n as int) == 1 ==> r->Some_0 as int % (2 * n as int) == 1,
{
    let m: u64 = (n as u64) * 2;
    if prev_q < m {
        return None;
    }
    let r = search_down(prev_q - m, m);
    proof {
        if r is Some && prev_q as int % (2 * n as int) == 1 {
            lemma_mod_sub_multiples_vanish(prev_q as int, 2 * n as int);
            lemma_same_class(prev_q - m, r->Some_0 as int, 2 * n as int);
        }
    }
    r
}

/// Number of significant bits of `x`.
fn bit_length(x: u64) -> (r: u32)
    ensures
        r <= 64,
        x < pow2(r as nat),
        x >= 1 ==> pow2((r - 1) as nat) <= x,
{
    let mut bits: u32 = 0;
    let mut v = x;
    proof {
        lemma2_to64();
    }
    while v > 0 && bits < 64
        invariant
            bits <= 64,
            v == (x as int) / (pow2(bits as nat) as int),
            bits >= 1 ==> x >= pow2((bits - 1) as nat),
        decreases v,
    {
        proof {
            lemma_pow2_pos(bits as nat);
            lemma_div_denominator(x as int, pow2(bits as nat) as int, 2);
            lemma_pow2_unfold((bits + 1) as nat);
            lemma_div_pos_is_pos(x as int, pow2(bits as nat) as int);
            // v >= 1 means x >= 2^bits
            lemma_fundamental_div_mod(x as int, pow2(bits as nat) as int);
            lemma_mod_pos_bound(x as int, pow2(bits as nat) as int);
            assert(x >= pow2(bits as nat)) by (nonlinear_arith)
                requires
                    v >= 1,
                    x == pow2(bits as nat) * v + (x as int) % (pow2(bits as nat) as int),
                    (x as int) % (pow2(bits as nat) as int) >= 0,
                    pow2(bits as nat) > 0,
            ;
            assert(pow2(bits as nat) * 2 == pow2((bits + 1) as nat));
        }
        v = v / 2;
        bits = bits + 1;
    }
    proof {
        lemma_pow2_pos(bits as nat);
        lemma2_to64_rest();
        if bits < 64 {
            assert(v == 0);
            lemma_fundamental_div_mod(x as int, pow2(bits as nat) as int);
            lemma_mod_pos_bound(x as int, pow2(bits as nat) as int);
        }
    }
    bits
}

/// Whether `r^(phi/p) != 1 (mod q)` for every prime `p` listed in `factors`.
fn root_test(class: &CongruenceClass, r: u64, phi: u64, factors: &Vec<(usize, usize)>) -> (ok: bool)
    requires
        class.wf(),
        phi == class.spec_q() - 1,
        r < class.spec_q(),
        forall|i: int| 0 <= i < factors@.len() ==> prime(#[trigger] factors@[i].0 as nat),
    ensures
        ok == passes_root_test(r as int, class.spec_q(), factors@),
{
    let mut i: usize = 0;
    while i < factors.len()
        invariant
            class.wf(),
            phi == class.spec_q() - 1,
            r < class.spec_q(),
            i <= factors@.len(),
            forall|j: int| 0 <= j < factors@.len() ==> prime(#[trigger] factors@[j].0 as nat),
            forall|j: int|
                0 <= j < i ==> #[trigger] power(r as int, ((class.spec_q() - 1) / (factors@[j].0 as int)) as nat)
                    % class.spec_q() != 1,
        decreases factors@.len() - i,
    {
        let p = factors[i].0;
        assert(prime(factors@[i as int].0 as nat));
        let v = class.modexp(r, phi / (p as u64));
        if v == 1 {
            assert(power(r as int, ((class.spec_q() - 1) / (factors@[i as int].0 as int)) as nat)
                % class.spec_q() == 1);
            return false;
        }
        i = i + 1;
    }
    true
}

/// The least primitive root of the prime `q`: the first `r = 2, 3, ...` with
/// `r^((q-1)/p) != 1 (mod q)` for every prime factor `p` of `q - 1` (and
/// `r^((q-1)/2) = -1`). `None` only when `q` has no primitive root or, on a
/// target whose `usize` cannot hold `q`, when `q - 1` cannot be factored.
pub fn find_primitive_root(q: u64) -> (r: Option<u64>)
    requires
        prime(q as nat),
        q < MODULUS_BOUND,
    ensures
        r is Some ==> is_least_primitive_root(r->Some_0 as int, q as int),
        r is Some ==> power(r->Some_0 as int, ((q - 1) / 2) as nat) % (q as int) == q - 1,
        has_primitive_root(q as int) && q <= usize::MAX ==> r is Some,
{
    let phi = q - 1;
    let logq = bit_length(q);
    let half: u32 = 1 + logq / 2;
    proof {
        lemma2_to64();
        lemma2_to64_rest();
        lemma_u64_pow2_no_overflow(half as nat);
        lemma_u64_shl_is_mul(1, half as u64);
    }
    let limit: u64 = 1u64 << (half as u64);
    proof {
        // limit^2 = 2^(2 + 2 (logq / 2)) >= 2^(logq + 1) > q
        lemma_pow2_adds(half as nat, half as nat);
        if (logq as nat) < 2 * (half as nat) {
            lemma_pow2_strictly_increases(logq as nat, 2 * (half as nat));
        }
        // q <= usize::MAX keeps the limit in range
        if q <= usize::MAX {
            if logq >= 4 {
                if (half as nat) < (logq - 1) as nat {
                    lemma_pow2_strictly_increases(half as nat, (logq - 1) as nat);
                }
            } else {
                if half < 3 {
                    lemma_pow2_strictly_increases(half as nat, 3);
                }
            }
        }
    }
    if limit > usize::MAX as u64 || phi > usize::MAX as u64 {
        return None;
    }
    let sieve = new_sieve(limit as usize);
    proof {
        assert((limit as nat) * (limit as nat) <= sieve_bound(sieve) * sieve_bound(sieve)) by (nonlinear_arith)
            requires
                limit <= sieve_bound(sieve),
        ;
    }
    let factors = match sieve_factor(&sieve, phi as usize) {
        Ok(f) => f,
        Err(_) => {
            return None;
        },
    };
    let r = root_from_factors(q, &factors);
    proof {
        if has_primitive_root(q as int) && r is None {
            let w = choose|w: int| is_primitive_root(w, q as int);
            lemma_primitive_is_candidate(w, q as int, factors@);
        }
    }
    r
}

/// The least `r` in `[2, q)` with `r^((q-1)/p) != 1 (mod q)` for every `p`
/// listed in `factors` and `r^((q-1)/2) = -1 (mod q)`, or `None` when no
/// such `r` exists.
pub fn root_from_factors(q: u64, factors: &Vec<(usize, usize)>) -> (r: Option<u64>)
    requires
        2 <= q < MODULUS_BOUND,
        forall|i: int| 0 <= i < factors@.len() ==> prime(#[trigger] factors@[i].0 as nat),
    ensures
        r is Some ==> {
            &&& 2 <= r->Some_0 < q
            &&& root_candidate(r->Some_0 as int, q as int, factors@)
            &&& forall|s: int| 2 <= s < r->Some_0 ==> !#[trigger] root_candidate(s, q as int, factors@)
        },
        r is None ==> forall|s: int| 2 <= s < q ==> !#[trigger] root_candidate(s, q as int, factors@),
{
    let class = CongruenceClass::new(q);
    let phi = q - 1;
    let mut r: u64 = 2;
    while r < q
        invariant
            2 <= r,
            class.wf(),
            class.spec_q() == q,
            phi == q - 1,
            forall|i: int| 0 <= i < factors@.len() ==> prime(#[trigger] factors@[i].0 as nat),
            forall|s: int| 2 <= s < r ==> !#[trigger] root_candidate(s, q as int, factors@),
        decreases q - r,
    {
        if root_test(&class, r, phi, factors) && class.modexp(r, phi / 2) == phi {
            return Some(r);
        }
        r = r + 1;
    }
    None
}

/// A primitive `2n`-th root of unity: the least primitive root `g0` of `q`
/// raised to `(q - 1) / 2n`.
pub fn find_generator(q: u64, n: usize) -> (r: Option<u64>)
    requires
        prime(q as nat),
        q < MODULUS_BOUND,
        1 <= n,
        (q - 1) % (2 * n as int) == 0,
    ensures
        r is Some ==> exists|g0: int|
            is_least_primitive_root(g0, q as int) && r->Some_0 == power(
                g0,
                ((q - 1) / (2 * n as int)) as nat,
            ) % (q as int),
        r is Some ==> {
            &&& r->Some_0 < q
            &&& power(r->Some_0 as int, n as nat) % (q as int) == q - 1
            &&& power(r->Some_0 as int, 2 * n as nat) % (q as int) == 1
        },
        has_primitive_root(q as int) && q <= usize::MAX ==> r is Some,
{
    let class = CongruenceClass::new(q);
    proof {
        if 2 * n > q - 1 {
            lemma_small_mod((q - 1) as nat, (2 * n) as nat);
        }
    }
    let m: u64 = (n as u64) * 2;
    match find_primitive_root(q) {
        Some(g0) => {
            let k = (q - 1) / m;
            let g = class.modexp(g0, k);
            proof {
                let qi = q as int;
                lemma_fundamental_div_mod((q - 1) as int, m as int);
                assert(k as int * n as int == (q - 1) / 2) by {
                    assert((q - 1) as int == 2 * (k as int * n as int)) by (nonlinear_arith)
                        requires
                            (q - 1) as int == (m as int) * (k as int) + 0,
                            m == 2 * n,
                    ;
                }
                lemma_power_mod(power(g0 as int, k as nat), n as nat, qi);
                lemma_power_multiplies(g0 as int, k as nat, n as nat);
                assert((k as nat) * (n as nat) == ((q - 1) / 2) as nat);
                lemma_power_adds(g as int, n as nat, n as nat);
                assert(n as nat + n as nat == 2 * n as nat);
                let h = power(g as int, n as nat);
                lemma_mul_mod_noop(h, h, qi);
                assert((qi - 1) * (qi - 1) == (qi - 2) * qi + 1) by (nonlinear_arith);
                lemma_fundamental_div_mod_converse_mod((qi - 1) * (qi - 1), qi, qi - 2, 1);
            }
            Some(g)
        },
        None => None,
    }
}

/// `(a + b) mod q` by a plain remainder.
pub fn modadd_naive(a: u64, b: u64, q: u64) -> (r: u64)
    requires
        q > 0,
        a + b <= u64::MAX,
    ensures
        r == (a as int + b as int) % q as int,
{
    (a + b) % q
}

/// `(a * b) mod q` by a full 128-bit product and remainder.
pub fn modmul_naive(a: u64, b: u64, q: u64) -> (r: u64)
    requires
        q > 0,
    ensures
        r == (a as int * b as int) % q as int,
{
    assert((a as int) * (b as int) <= 0xffff_ffff_ffff_ffff * 0xffff_ffff_ffff_ffff) by (nonlinear_arith)
        requires
            a <= 0xffff_ffff_ffff_ffffu64,
            b <= 0xffff_ffff_ffff_ffffu64,
    ;
    let prod: u128 = ((a as u128) * (b as u128)) % (q as u128);
    prod as u64
}

/// `q - a`, the negation of a nonzero residue.
pub fn modnegate(a: u64, q: u64) -> (r: u64)
    requires
        a <= q,
    ensures
        r == q - a,
{
    q - a
}

/// `(a + b) mod q` with one conditional subtraction.
pub fn modadd(a: u64, b: u64, q: u64) -> (r: u64)
    requires
        a < q,
        b < q,
        q <= MODULUS_BOUND,
    ensures
        r == (a as int + b as int) % q as int,
{
    let t = a + b;
    if t < q {
        proof {
            lemma_fundamental_div_mod_converse_mod(t as int, q as int, 0, t as int);
        }
        t
    } else {
        proof {
            lemma_fundamental_div_mod_converse_mod(t as int, q as int, 1, t - q);
        }
        t - q
    }
}

/// `(a - b) mod q` with one conditional addition.
pub fn modsub(a: u64, b: u64, q: u64) -> (r: u64)
    requires
        a < q,
        b < q,
        q <= MODULUS_BOUND,
    ensures
        r == (a as int - b as int) % q as int,
{
    if a >= b {
        proof {
            lemma_fundamental_div_mod_converse_mod(a - b, q as int, 0, a - b);
        }
        a - b
    } else {
        proof {
            lemma_fundamental_div_mod_converse_mod(a - b, q as int, -1, q + a - b);
        }
        (q + a) - b
    }
}

} // verus!
