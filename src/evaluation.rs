//! Polynomial evaluation over the integers and the facts behind the
//! convolution theorem for `Z_q[x]/(x^N + 1)`.

use crate::congruence::{lemma_power_mod, power};
use crate::polymath::{nega_partial, nega_term};
use vstd::arithmetic::div_mod::*;
use vstd::arithmetic::mul::*;
use vstd::prelude::*;

verus! {

/// `sum_{k < n} x[k] c^k`.
pub open spec fn eval_upto(x: Seq<int>, c: int, n: nat) -> int
    decreases n,
{
    if n == 0 {
        0
    } else {
        eval_upto(x, c, (n - 1) as nat) + x[n - 1] * power(c, (n - 1) as nat)
    }
}

/// The entries of `a` as integers.
pub open spec fn as_ints(a: Seq<u64>) -> Seq<int> {
    Seq::new(a.len(), |k: int| a[k] as int)
}

/// `x` multiplied by `x^j` in `Z[x]/(x^n + 1)`, `n = x.len()`, `j < n`.
pub open spec fn rotate(x: Seq<int>, j: int) -> Seq<int> {
    Seq::new(
        x.len(),
        |i: int|
            if i >= j {
                x[i - j]
            } else {
                -x[x.len() + i - j]
            },
    )
}

/// Only the first `n` entries matter.
pub proof fn lemma_eval_prefix(x: Seq<int>, y: Seq<int>, c: int, n: nat)
    requires
        forall|k: int| 0 <= k < n ==> x[k] == y[k],
    ensures
        eval_upto(x, c, n) == eval_upto(y, c, n),
    decreases n,
{
    if n > 0 {
        lemma_eval_prefix(x, y, c, (n - 1) as nat);
    }
}

/// Evaluation is linear in the coefficients.
pub proof fn lemma_eval_linear(x: Seq<int>, y: Seq<int>, z: Seq<int>, k: int, c: int, n: nat)
    requires
        forall|i: int| 0 <= i < n ==> #[trigger] z[i] == x[i] + k * y[i],
    ensures
        eval_upto(z, c, n) == eval_upto(x, c, n) + k * eval_upto(y, c, n),
    decreases n,
{
    if n > 0 {
        lemma_eval_linear(x, y, z, k, c, (n - 1) as nat);
        let p = power(c, (n - 1) as nat);
        let m = n - 1;
        assert((x[m] + k * y[m]) * p == x[m] * p + k * (y[m] * p)) by (nonlinear_arith);
        assert(k * (eval_upto(y, c, (n - 1) as nat) + y[m] * p) == k * eval_upto(
            y,
            c,
            (n - 1) as nat,
        ) + k * (y[m] * p)) by (nonlinear_arith);
    }
}

/// Congruent coefficients give congruent values.
pub proof fn lemma_eval_coeffs_mod(x: Seq<int>, y: Seq<int>, c: int, n: nat, q: int)
    requires
        0 < q,
        forall|k: int| 0 <= k < n ==> #[trigger] (x[k] % q) == y[k] % q,
    ensures
        eval_upto(x, c, n) % q == eval_upto(y, c, n) % q,
    decreases n,
{
    if n > 0 {
        let m = n - 1;
        lemma_eval_coeffs_mod(x, y, c, (n - 1) as nat, q);
        let p = power(c, (n - 1) as nat);
        lemma_mul_mod_noop_left(x[m], p, q);
        lemma_mul_mod_noop_left(y[m], p, q);
        lemma_add_mod_noop(eval_upto(x, c, (n - 1) as nat), x[m] * p, q);
        lemma_add_mod_noop(eval_upto(y, c, (n - 1) as nat), y[m] * p, q);
    }
}

/// Congruent points give congruent values.
pub proof fn lemma_eval_point_mod(x: Seq<int>, c1: int, c2: int, n: nat, q: int)
    requires
        0 < q,
        c1 % q == c2 % q,
    ensures
        eval_upto(x, c1, n) % q == eval_upto(x, c2, n) % q,
    decreases n,
{
    if n > 0 {
        let m = n - 1;
        lemma_eval_point_mod(x, c1, c2, (n - 1) as nat, q);
        lemma_power_mod(c1, (n - 1) as nat, q);
        lemma_power_mod(c2, (n - 1) as nat, q);
        lemma_mul_mod_noop_right(x[m], power(c1, (n - 1) as nat), q);
        lemma_mul_mod_noop_right(x[m], power(c2, (n - 1) as nat), q);
        lemma_add_mod_noop(eval_upto(x, c1, (n - 1) as nat), x[m] * power(c1, (n - 1) as nat), q);
        lemma_add_mod_noop(eval_upto(x, c2, (n - 1) as nat), x[m] * power(c2, (n - 1) as nat), q);
    }
}

/// Splitting into even and odd positions: `x(s) = e(s^2) + s o(s^2)`.
pub proof fn lemma_eval_split(x: Seq<int>, e: Seq<int>, o: Seq<int>, s: int, k: nat)
    requires
        forall|j: int| 0 <= j < k ==> #[trigger] e[j] == x[2 * j],
        forall|j: int| 0 <= j < k ==> #[trigger] o[j] == x[2 * j + 1],
    ensures
        eval_upto(x, s, 2 * k) == eval_upto(e, s * s, k) + s * eval_upto(o, s * s, k),
    decreases k,
{
    if k > 0 {
        let m = (k - 1) as nat;
        lemma_eval_split(x, e, o, s, m);
        crate::congruence::lemma_power_square(s, m);
        assert(2 * k - 1 == 2 * m + 1);
        assert(eval_upto(x, s, 2 * k) == eval_upto(x, s, 2 * m) + x[2 * m as int] * power(s, 2 * m) + x[2 * m as int + 1] * power(s, 2 * m + 1)) by {
            assert(eval_upto(x, s, (2 * m + 1) as nat) == eval_upto(x, s, 2 * m) + x[2 * m as int] * power(
                s,
                2 * m,
            ));
        }
        assert(power(s, 2 * m + 1) == s * power(s, 2 * m));
        let p = power(s, 2 * m);
        assert(x[2 * m as int + 1] * (s * p) == s * (o[m as int] * p)) by (nonlinear_arith)
            requires
                o[m as int] == x[2 * m as int + 1],
        ;
        assert(s * (eval_upto(o, s * s, m) + o[m as int] * p) == s * eval_upto(o, s * s, m) + s * (
        o[m as int] * p)) by (nonlinear_arith);
    }
}

/// Multiplying by `c` shifts the coefficients up by one place.
proof fn lemma_eval_shift(x: Seq<int>, y: Seq<int>, c: int, n: nat)
    requires
        y[0] == 0,
        forall|i: int| 1 <= i <= n ==> #[trigger] y[i] == x[i - 1],
    ensures
        c * eval_upto(x, c, n) == eval_upto(y, c, n + 1),
    decreases n,
{
    if n == 0 {
        assert(eval_upto(y, c, 1) == eval_upto(y, c, 0) + y[0] * power(c, 0));
    } else {
        let m = (n - 1) as nat;
        lemma_eval_shift(x, y, c, m);
        assert(power(c, n) == c * power(c, m));
        assert(c * (eval_upto(x, c, m) + x[m as int] * power(c, m)) == c * eval_upto(x, c, m) + x[m
            as int] * (c * power(c, m))) by (nonlinear_arith);
    }
}

/// A change at position zero moves the value by the same amount.
proof fn lemma_eval_change_first(x: Seq<int>, y: Seq<int>, c: int, n: nat)
    requires
        n >= 1,
        forall|i: int| 1 <= i < n ==> #[trigger] y[i] == x[i],
    ensures
        eval_upto(y, c, n) == eval_upto(x, c, n) + (y[0] - x[0]),
    decreases n,
{
    if n == 1 {
        assert(power(c, 0) == 1);
        assert(eval_upto(y, c, 0) == 0);
        assert(eval_upto(x, c, 0) == 0);
        assert(eval_upto(y, c, 1) == eval_upto(y, c, 0) + y[0] * power(c, 0));
        assert(eval_upto(x, c, 1) == eval_upto(x, c, 0) + x[0] * power(c, 0));
    } else {
        lemma_eval_change_first(x, y, c, (n - 1) as nat);
    }
}

/// At a point with `c^n = -1 (mod q)`, multiplying by `c` is a negacyclic
/// rotation by one place.
proof fn lemma_eval_rotate_one(x: Seq<int>, c: int, q: int)
    requires
        1 < q,
        x.len() >= 1,
        power(c, x.len()) % q == q - 1,
    ensures
        (c * eval_upto(x, c, x.len())) % q == eval_upto(rotate(x, 1), c, x.len()) % q,
{
    let n = x.len();
    let y = Seq::new(n + 1, |i: int| if i == 0 { 0 } else { x[i - 1] });
    lemma_eval_shift(x, y, c, n);
    let r = rotate(x, 1);
    assert forall|i: int| 1 <= i < n implies #[trigger] r[i] == y[i] by {}
    lemma_eval_change_first(y, r, c, n);
    assert(eval_upto(y, c, n + 1) == eval_upto(y, c, n) + y[n as int] * power(c, n));
    let t = x[n - 1];
    let p = power(c, n);
    assert(r[0] == -t);
    assert(t + t * p == t * (p + 1)) by (nonlinear_arith);
    assert(c * eval_upto(x, c, n) == eval_upto(r, c, n) + t * (p + 1));
    lemma_add_mod_noop(p, 1, q);
    lemma_small_mod(1, q as nat);
    lemma_mod_self_0(q);
    assert((p + 1) % q == 0);
    lemma_mul_mod_noop_right(t, p + 1, q);
    lemma_mul_by_zero_is_zero(t);
    lemma_small_mod(0, q as nat);
    lemma_add_mod_noop(eval_upto(r, c, n), t * (p + 1), q);
    lemma_mod_twice(eval_upto(r, c, n), q);
}

/// Rotating by `j` then by one is rotating by `j + 1`.
proof fn lemma_rotate_step(x: Seq<int>, j: int)
    requires
        0 <= j,
        j + 1 < x.len(),
    ensures
        rotate(rotate(x, j), 1) == rotate(x, j + 1),
{
    assert(rotate(rotate(x, j), 1) =~= rotate(x, j + 1));
}

/// At a point with `c^n = -1 (mod q)`, multiplying by `c^j` is a
/// negacyclic rotation by `j` places.
proof fn lemma_eval_rotate(x: Seq<int>, c: int, j: nat, q: int)
    requires
        1 < q,
        j < x.len(),
        power(c, x.len()) % q == q - 1,
    ensures
        (power(c, j) * eval_upto(x, c, x.len())) % q == eval_upto(rotate(x, j as int), c, x.len())
            % q,
    decreases j,
{
    let n = x.len();
    let e = eval_upto(x, c, n);
    if j == 0 {
        assert(rotate(x, 0) =~= x);
        assert(power(c, 0) * e == e);
    } else {
        let m = (j - 1) as nat;
        lemma_eval_rotate(x, c, m, q);
        let xr = rotate(x, m as int);
        lemma_eval_rotate_one(xr, c, q);
        lemma_rotate_step(x, m as int);
        // c^j e = c (c^m e)
        assert(power(c, j) * e == c * (power(c, m) * e)) by (nonlinear_arith)
            requires
                power(c, j) == c * power(c, m),
        ;
        lemma_mul_mod_noop_right(c, power(c, m) * e, q);
        lemma_mul_mod_noop_right(c, eval_upto(xr, c, n), q);
    }
}

/// `sum_{j < J} a[j] (x^j b)(c)`, the rows of the product.
pub open spec fn cross(a: Seq<int>, b: Seq<int>, c: int, jj: nat) -> int
    decreases jj,
{
    if jj == 0 {
        0
    } else {
        cross(a, b, c, (jj - 1) as nat) + a[jj - 1] * eval_upto(rotate(b, jj - 1), c, b.len())
    }
}

/// The value of the partial negacyclic sums is the sum of the rows.
proof fn lemma_columns(a: Seq<u64>, b: Seq<u64>, c: int, jj: nat)
    requires
        a.len() == b.len(),
        jj <= a.len(),
    ensures
        eval_upto(Seq::new(a.len(), |i: int| nega_partial(a, b, i, jj)), c, a.len()) == cross(
            as_ints(a),
            as_ints(b),
            c,
            jj,
        ),
    decreases jj,
{
    let n = a.len();
    let z = Seq::new(n, |i: int| nega_partial(a, b, i, jj));
    if jj == 0 {
        let zero = Seq::new(n, |i: int| 0int);
        assert(z =~= zero);
        lemma_eval_linear(zero, zero, zero, 1, c, n);
        lemma_eval_prefix(z, zero, c, n);
    } else {
        let m = (jj - 1) as nat;
        lemma_columns(a, b, c, m);
        let x = Seq::new(n, |i: int| nega_partial(a, b, i, m));
        let y = rotate(as_ints(b), m as int);
        assert forall|i: int| 0 <= i < n implies #[trigger] z[i] == x[i] + a[m as int] * y[i] by {
            assert(nega_partial(a, b, i, jj) == nega_partial(a, b, i, m) + nega_term(a, b, i, m as int));
            if m as int <= i {
            } else {
                assert(a[m as int] * -(b[n + i - m] as int) == -(a[m as int] * b[n + i - m])) by (nonlinear_arith);
            }
        }
        lemma_eval_linear(x, y, z, a[m as int] as int, c, n);
    }
}

/// Distributing `A(c) B(c)` over the terms of `A` gives the rows, modulo
/// `q`.
proof fn lemma_rows(a: Seq<u64>, b: Seq<u64>, c: int, jj: nat, q: int)
    requires
        1 < q,
        a.len() == b.len(),
        jj <= a.len(),
        power(c, a.len()) % q == q - 1,
    ensures
        (eval_upto(as_ints(a), c, jj) * eval_upto(as_ints(b), c, b.len())) % q == cross(
            as_ints(a),
            as_ints(b),
            c,
            jj,
        ) % q,
    decreases jj,
{
    let bb = as_ints(b);
    let y = eval_upto(bb, c, b.len());
    if jj > 0 {
        let m = (jj - 1) as nat;
        lemma_rows(a, b, c, m, q);
        let am = a[m as int] as int;
        let ea = eval_upto(as_ints(a), c, m);
        assert((ea + am * power(c, m)) * y == ea * y + am * (power(c, m) * y)) by (nonlinear_arith);
        lemma_eval_rotate(bb, c, m, q);
        lemma_mul_mod_noop_right(am, power(c, m) * y, q);
        lemma_mul_mod_noop_right(am, eval_upto(rotate(bb, m as int), c, b.len()), q);
        lemma_add_mod_noop(ea * y, am * (power(c, m) * y), q);
        lemma_add_mod_noop(
            cross(as_ints(a), bb, c, m),
            am * eval_upto(rotate(bb, m as int), c, b.len()),
            q,
        );
    }
}

/// The convolution theorem at one point: at `c` with `c^n = -1 (mod q)`, the
/// negacyclic product evaluates to the product of the evaluations.
pub proof fn lemma_negacyclic_eval(a: Seq<u64>, b: Seq<u64>, c: int, q: int)
    requires
        1 < q,
        a.len() == b.len(),
        power(c, a.len()) % q == q - 1,
    ensures
        eval_upto(Seq::new(a.len(), |i: int| nega_partial(a, b, i, a.len())), c, a.len()) % q == (
        eval_upto(as_ints(a), c, a.len()) * eval_upto(as_ints(b), c, b.len())) % q,
{
    lemma_columns(a, b, c, a.len());
    lemma_rows(a, b, c, a.len(), q);
}

} // verus!
