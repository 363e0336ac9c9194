//! Finite sums of integer-valued functions, and a verified gcd.
//!
//! `csum(f, k)` is `f(0) + ... + f(k - 1)`.  The lemmas below cover the
//! manipulations the diffusion proofs need: pointwise rewriting, splitting a
//! pointwise sum, pulling out a constant factor, bounds, and re-indexing a sum
//! along a shift or a cyclic rotation of its domain.

use vstd::prelude::*;

verus! {

/// Sum of `f(0) + f(1) + ... + f(k - 1)`; `0` when `k <= 0`.
pub open spec fn csum(f: spec_fn(int) -> int, k: int) -> int
    decreases k,
{
    if k <= 0 {
        0
    } else {
        csum(f, k - 1) + f(k - 1)
    }
}

/// Two functions that agree on `[0, k)` have the same sum.
pub proof fn lemma_csum_ext(f: spec_fn(int) -> int, g: spec_fn(int) -> int, k: int)
    requires
        forall|i: int| 0 <= i < k ==> #[trigger] f(i) == g(i),
    ensures
        csum(f, k) == csum(g, k),
    decreases k,
{
    if k > 0 {
        lemma_csum_ext(f, g, k - 1);
    }
}

/// A pointwise sum of two functions sums to the sum of their sums.
pub proof fn lemma_csum_add(
    f: spec_fn(int) -> int,
    g: spec_fn(int) -> int,
    h: spec_fn(int) -> int,
    k: int,
)
    requires
        forall|i: int| 0 <= i < k ==> #[trigger] h(i) == f(i) + g(i),
    ensures
        csum(h, k) == csum(f, k) + csum(g, k),
    decreases k,
{
    if k > 0 {
        lemma_csum_add(f, g, h, k - 1);
    }
}

/// A constant factor moves out of a sum.
pub proof fn lemma_csum_scale(f: spec_fn(int) -> int, g: spec_fn(int) -> int, c: int, k: int)
    requires
        forall|i: int| 0 <= i < k ==> #[trigger] g(i) == c * f(i),
    ensures
        csum(g, k) == c * csum(f, k),
    decreases k,
{
    if k > 0 {
        lemma_csum_scale(f, g, c, k - 1);
        assert(c * (csum(f, k - 1) + f(k - 1)) == c * csum(f, k - 1) + c * f(k - 1))
            by (nonlinear_arith);
    }
}

/// A function that vanishes on `[0, k)` sums to zero.
pub proof fn lemma_csum_zero(f: spec_fn(int) -> int, k: int)
    requires
        forall|i: int| 0 <= i < k ==> #[trigger] f(i) == 0,
    ensures
        csum(f, k) == 0,
    decreases k,
{
    if k > 0 {
        lemma_csum_zero(f, k - 1);
    }
}

/// A sum of nonnegative values is nonnegative.
pub proof fn lemma_csum_nonneg(f: spec_fn(int) -> int, k: int)
    requires
        forall|i: int| 0 <= i < k ==> #[trigger] f(i) >= 0,
    ensures
        csum(f, k) >= 0,
    decreases k,
{
    if k > 0 {
        lemma_csum_nonneg(f, k - 1);
    }
}

/// Sums respect a pointwise bound.
pub proof fn lemma_csum_le(f: spec_fn(int) -> int, g: spec_fn(int) -> int, k: int)
    requires
        forall|i: int| 0 <= i < k ==> #[trigger] f(i) <= g(i),
    ensures
        csum(f, k) <= csum(g, k),
    decreases k,
{
    if k > 0 {
        lemma_csum_le(f, g, k - 1);
    }
}

/// A pointwise bound that is strict somewhere makes the sums strictly ordered.
pub proof fn lemma_csum_lt(f: spec_fn(int) -> int, g: spec_fn(int) -> int, k: int, j: int)
    requires
        forall|i: int| 0 <= i < k ==> #[trigger] f(i) <= g(i),
        0 <= j < k,
        f(j) < g(j),
    ensures
        csum(f, k) < csum(g, k),
    decreases k,
{
    if j == k - 1 {
        lemma_csum_le(f, g, k - 1);
    } else {
        lemma_csum_lt(f, g, k - 1, j);
    }
}

/// For a nonnegative function, a prefix sum is at most a longer prefix sum.
pub proof fn lemma_csum_prefix_le(f: spec_fn(int) -> int, k1: int, k2: int)
    requires
        0 <= k1 <= k2,
        forall|i: int| 0 <= i < k2 ==> #[trigger] f(i) >= 0,
    ensures
        csum(f, k1) <= csum(f, k2),
    decreases k2,
{
    if k1 < k2 {
        lemma_csum_prefix_le(f, k1, k2 - 1);
    }
}

/// For a nonnegative function, each value is at most the whole sum.
pub proof fn lemma_csum_elem_le(f: spec_fn(int) -> int, k: int, j: int)
    requires
        0 <= j < k,
        forall|i: int| 0 <= i < k ==> #[trigger] f(i) >= 0,
    ensures
        f(j) <= csum(f, k),
    decreases k,
{
    if j == k - 1 {
        lemma_csum_nonneg(f, k - 1);
    } else {
        lemma_csum_elem_le(f, k - 1, j);
    }
}

/// Shifting the argument by one: `g(i) == f(i + 1)` relates the two sums.
pub proof fn lemma_csum_shift(f: spec_fn(int) -> int, g: spec_fn(int) -> int, k: int)
    requires
        0 <= k,
        forall|i: int| 0 <= i < k ==> #[trigger] g(i) == f(i + 1),
    ensures
        csum(g, k) == csum(f, k + 1) - f(0),
    decreases k,
{
    if k > 0 {
        lemma_csum_shift(f, g, k - 1);
        assert(csum(f, k + 1) == csum(f, k) + f(k));
    } else {
        assert(csum(f, 1) == csum(f, 0) + f(0));
    }
}

/// The index `i - 1`, wrapping `0` around to `n - 1`.
pub open spec fn wrap_dec(n: int, i: int) -> int {
    if i <= 0 {
        n - 1
    } else {
        i - 1
    }
}

/// The index `i + 1`, wrapping `n - 1` around to `0`.
pub open spec fn wrap_inc(n: int, i: int) -> int {
    if i >= n - 1 {
        0
    } else {
        i + 1
    }
}

/// A sum is unchanged by composing with the cyclic rotation `wrap_dec`.
pub proof fn lemma_csum_rot_dec(f: spec_fn(int) -> int, g: spec_fn(int) -> int, n: int)
    requires
        n >= 1,
        forall|i: int| 0 <= i < n ==> #[trigger] g(i) == f(wrap_dec(n, i)),
    ensures
        csum(g, n) == csum(f, n),
{
    // g(0) == f(n - 1) and g(i + 1) == f(i) for i in [0, n - 1).
    let g1 = |i: int| g(i + 1);
    lemma_csum_shift(g, g1, n - 1);
    lemma_csum_ext(g1, f, n - 1);
}

/// A sum is unchanged by composing with the cyclic rotation `wrap_inc`.
pub proof fn lemma_csum_rot_inc(f: spec_fn(int) -> int, g: spec_fn(int) -> int, n: int)
    requires
        n >= 1,
        forall|i: int| 0 <= i < n ==> #[trigger] g(i) == f(wrap_inc(n, i)),
    ensures
        csum(g, n) == csum(f, n),
{
    // g(i) == f(i + 1) for i in [0, n - 1), and g(n - 1) == f(0).
    let f1 = |i: int| f(i + 1);
    lemma_csum_shift(f, f1, n - 1);
    lemma_csum_ext(g, f1, n - 1);
}

/// A sum guarded below: zero at `0`, otherwise the predecessor's value.
pub proof fn lemma_csum_guard_dec(f: spec_fn(int) -> int, g: spec_fn(int) -> int, n: int)
    requires
        n >= 1,
        forall|i: int| 0 <= i < n ==> #[trigger] g(i) == (if i > 0 { f(i - 1) } else { 0 }),
    ensures
        csum(g, n) == csum(f, n - 1),
{
    let g1 = |i: int| g(i + 1);
    lemma_csum_shift(g, g1, n - 1);
    lemma_csum_ext(g1, f, n - 1);
}

/// A sum guarded above: zero at `n - 1`, otherwise the successor's value.
pub proof fn lemma_csum_guard_inc(f: spec_fn(int) -> int, g: spec_fn(int) -> int, n: int)
    requires
        n >= 1,
        forall|i: int| 0 <= i < n ==> #[trigger] g(i) == (if i < n - 1 { f(i + 1) } else { 0 }),
    ensures
        csum(g, n) == csum(f, n) - f(0),
{
    let f1 = |i: int| f(i + 1);
    lemma_csum_shift(f, f1, n - 1);
    lemma_csum_ext(g, f1, n - 1);
}

/// Keeping every value but the last: the sum loses only `f(n - 1)`.
pub proof fn lemma_csum_keep_below(f: spec_fn(int) -> int, g: spec_fn(int) -> int, n: int)
    requires
        n >= 1,
        forall|i: int| 0 <= i < n ==> #[trigger] g(i) == (if i < n - 1 { f(i) } else { 0 }),
    ensures
        csum(g, n) == csum(f, n - 1),
{
    lemma_csum_ext(g, f, n - 1);
}

/// Keeping every value but the first: the sum loses only `f(0)`.
pub proof fn lemma_csum_keep_above(f: spec_fn(int) -> int, g: spec_fn(int) -> int, n: int)
    requires
        n >= 1,
        forall|i: int| 0 <= i < n ==> #[trigger] g(i) == (if i > 0 { f(i) } else { 0 }),
    ensures
        csum(g, n) == csum(f, n) - f(0),
    decreases n,
{
    if n == 1 {
        assert(csum(g, 1) == csum(g, 0) + g(0));
        assert(csum(f, 1) == csum(f, 0) + f(0));
    } else {
        lemma_csum_keep_above(f, g, n - 1);
    }
}

/// A positive sum of nonnegative values has a positive member.
pub proof fn lemma_csum_pos_witness(f: spec_fn(int) -> int, k: int) -> (j: int)
    requires
        forall|i: int| 0 <= i < k ==> #[trigger] f(i) >= 0,
        csum(f, k) > 0,
    ensures
        0 <= j < k,
        f(j) > 0,
    decreases k,
{
    if f(k - 1) > 0 {
        k - 1
    } else {
        lemma_csum_pos_witness(f, k - 1)
    }
}

/// `d` divides `x`: some integer `q` has `x == d * q`.
pub open spec fn divides(d: int, x: int) -> bool {
    exists|q: int| x == #[trigger] (d * q)
}

pub proof fn lemma_divides_self_and_zero(d: int)
    ensures
        divides(d, d),
        divides(d, 0),
{
    assert(d == d * 1);
    assert(0 == d * 0);
}

pub proof fn lemma_divides_transitive(a: int, b: int, c: int)
    requires
        divides(a, b),
        divides(b, c),
    ensures
        divides(a, c),
{
    let q1 = choose|q: int| b == #[trigger] (a * q);
    let q2 = choose|q: int| c == #[trigger] (b * q);
    assert(c == a * (q1 * q2)) by (nonlinear_arith)
        requires
            b == a * q1,
            c == b * q2,
    ;
}

/// A divisor of `b` and of `a % b` also divides `a`.
pub proof fn lemma_divides_mod(d: int, a: int, b: int)
    requires
        b > 0,
        divides(d, b),
        divides(d, a % b),
    ensures
        divides(d, a),
{
    let q1 = choose|q: int| b == #[trigger] (d * q);
    let q2 = choose|q: int| a % b == #[trigger] (d * q);
    vstd::arithmetic::div_mod::lemma_fundamental_div_mod(a, b);
    assert(a == d * ((a / b) * q1 + q2)) by (nonlinear_arith)
        requires
            b == d * q1,
            a % b == d * q2,
            a == b * (a / b) + a % b,
    ;
}

/// The greatest common divisor, by Euclid's recursion.
pub open spec fn gcd_spec(a: nat, b: nat) -> nat
    decreases b,
{
    if b == 0 {
        a
    } else {
        gcd_spec(b, a % b)
    }
}

/// `gcd_spec(a, b)` divides both of its arguments, and is positive unless
/// both are zero.
pub proof fn lemma_gcd_properties(a: nat, b: nat)
    ensures
        divides(gcd_spec(a, b) as int, a as int),
        divides(gcd_spec(a, b) as int, b as int),
        a > 0 || b > 0 ==> gcd_spec(a, b) > 0,
    decreases b,
{
    if b == 0 {
        lemma_divides_self_and_zero(a as int);
    } else {
        lemma_gcd_properties(b, a % b);
        lemma_divides_mod(gcd_spec(b, a % b) as int, a as int, b as int);
    }
}

/// Euclid's algorithm; the result is `gcd_spec` of the arguments.
pub fn gcd(a: u64, b: u64) -> (g: u64)
    ensures
        g == gcd_spec(a as nat, b as nat),
{
    let mut x: u64 = a;
    let mut y: u64 = b;
    while y != 0
        invariant
            gcd_spec(x as nat, y as nat) == gcd_spec(a as nat, b as nat),
        decreases y,
    {
        let r: u64 = x % y;
        x = y;
        y = r;
    }
    x
}

/// Flooring division is superadditive on nonnegative values: rounding the
/// parts down loses at least as much as rounding the sum down.
pub proof fn lemma_div_superadd(a: int, b: int, d: int)
    requires
        d >= 1,
        a >= 0,
        b >= 0,
    ensures
        a / d + b / d <= (a + b) / d,
{
    vstd::arithmetic::div_mod::lemma_fundamental_div_mod(a, d);
    vstd::arithmetic::div_mod::lemma_fundamental_div_mod(b, d);
    vstd::arithmetic::div_mod::lemma_mod_division_less_than_divisor(a, d);
    vstd::arithmetic::div_mod::lemma_mod_division_less_than_divisor(b, d);
    let q = a / d + b / d;
    let r = a % d + b % d;
    assert(a + b == d * q + r) by (nonlinear_arith)
        requires
            a == d * (a / d) + a % d,
            b == d * (b / d) + b % d,
            q == a / d + b / d,
            r == a % d + b % d,
    ;
    if r < d {
        vstd::arithmetic::div_mod::lemma_fundamental_div_mod_converse(a + b, d, q, r);
    } else {
        assert(a + b == d * (q + 1) + (r - d)) by (nonlinear_arith)
            requires
                a + b == d * q + r,
    ;
        vstd::arithmetic::div_mod::lemma_fundamental_div_mod_converse(a + b, d, q + 1, r - d);
    }
}

/// Summing values divided (with flooring) by a common positive `d` stays at
/// or below the divided sum.
pub proof fn lemma_csum_div_le(f: spec_fn(int) -> int, g: spec_fn(int) -> int, d: int, k: int)
    requires
        d >= 1,
        forall|i: int| 0 <= i < k ==> #[trigger] f(i) >= 0,
        forall|i: int| 0 <= i < k ==> #[trigger] g(i) == f(i) / d,
    ensures
        csum(g, k) <= csum(f, k) / d,
    decreases k,
{
    if k <= 0 {
    } else {
        lemma_csum_div_le(f, g, d, k - 1);
        lemma_csum_nonneg(f, k - 1);
        lemma_div_superadd(csum(f, k - 1), f(k - 1), d);
    }
}

/// Dividing a multiple of a positive `g` recovers the cofactor exactly.
pub proof fn lemma_div_exact(x: int, g: int)
    requires
        g > 0,
        x >= 0,
        divides(g, x),
    ensures
        x / g >= 0,
        x == g * (x / g),
{
    let q = choose|qq: int| x == #[trigger] (g * qq);
    assert(q >= 0) by (nonlinear_arith)
        requires
            x == g * q,
            x >= 0,
            g > 0,
    ;
    vstd::arithmetic::div_mod::lemma_div_multiples_vanish(q, g);
}

} // verus!
