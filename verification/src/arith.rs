//! Scalar arithmetic in the ring of integers modulo `q`, as specification
//! functions, together with the lemmas about them that the rest of the
//! crate builds on.

use vstd::prelude::*;

verus! {

/// Value of a modular addition: `(a + b) mod q`.
pub open spec fn add_val(a: int, b: int, q: int) -> int {
    (a + b) % q
}

/// Value of a modular multiplication: `(a * b) mod q`.
pub open spec fn mul_val(a: int, b: int, q: int) -> int {
    (a * b) % q
}

/// Value of a modular subtraction as the scalar type computes it:
/// the difference when it does not go below zero, and otherwise the
/// wrap-around `q - (b - a)`.
pub open spec fn sub_val(a: int, b: int, q: int) -> int {
    if a >= b {
        a - b
    } else {
        q - (b - a)
    }
}

/// Rounding of `x * p / q` to the nearest integer (halves rounding up),
/// reduced modulo `p`.  This is the recovery step shared by decryption
/// and the PIR protocols, written over the integers so that it is exact
/// for every `x` in `[0, q)`.
pub open spec fn round_scale(x: int, p: int, q: int) -> int {
    ((2 * x * p + q) / (2 * q)) % p
}

/// Computes `round_scale`: nearest-integer rounding of `x * p / q`,
/// reduced modulo `p`, exactly, in integer arithmetic.
pub fn round_scaled(x: u64, p: u64, q: u64) -> (r: u64)
    requires
        1 <= p <= q,
        q < 0x8000000000000000,
        x < q,
    ensures
        r == round_scale(x as int, p as int, q as int),
        r < p,
{
    assert(2 * (x as u128) * (p as u128) + (q as u128) < u128::MAX) by (nonlinear_arith)
        requires
            x < 0x8000000000000000u64,
            p < 0x8000000000000000u64,
            q < 0x8000000000000000u64;
    let num: u128 = 2 * (x as u128) * (p as u128) + (q as u128);
    let den: u128 = 2 * (q as u128);
    ((num / den) % (p as u128)) as u64
}

/// For reduced operands, modular subtraction undoes modular addition.
proof fn lemma_sub_add_cancel(a: int, b: int, q: int)
    requires
        q > 0,
        0 <= a < q,
        0 <= b < q,
    ensures
        sub_val(add_val(a, b, q), b, q) == a,
{
    if a + b < q {
        vstd::arithmetic::div_mod::lemma_small_mod((a + b) as nat, q as nat);
    } else {
        vstd::arithmetic::div_mod::lemma_small_mod((a + b - q) as nat, q as nat);
        assert((a + b) % q == (a + b - q) % q) by {
            vstd::arithmetic::div_mod::lemma_mod_sub_multiples_vanish(a + b, q);
        }
    }
}

/// For reduced operands, the wrap-around subtraction is exactly the
/// Euclidean remainder of the difference.
pub proof fn lemma_sub_val_is_mod(a: int, b: int, q: int)
    requires
        q > 0,
        0 <= a < q,
        0 <= b < q,
    ensures
        sub_val(a, b, q) == (a - b) % q,
{
    if a >= b {
        vstd::arithmetic::div_mod::lemma_small_mod((a - b) as nat, q as nat);
    } else {
        assert((a - b) % q == (q + (a - b)) % q) by {
            vstd::arithmetic::div_mod::lemma_mod_add_multiples_vanish(a - b, q);
        }
        vstd::arithmetic::div_mod::lemma_small_mod((q + a - b) as nat, q as nat);
    }
}

/// Stripping a reduced base from a reduced total is subtraction of the
/// plain values, reduced.
pub proof fn lemma_strip(full: int, base: int, q: int)
    requires
        q > 0,
    ensures
        sub_val(full % q, base % q, q) == (full - base) % q,
{
    vstd::arithmetic::div_mod::lemma_mod_bound(full, q);
    vstd::arithmetic::div_mod::lemma_mod_bound(base, q);
    lemma_sub_val_is_mod(full % q, base % q, q);
    vstd::arithmetic::div_mod::lemma_sub_mod_noop(full, base, q);
}

/// Two integers congruent modulo `q` stay congruent when the same
/// value is added to both.
pub proof fn lemma_cong_add(x: int, y: int, t: int, q: int)
    requires
        q > 0,
        x % q == y % q,
    ensures
        (x + t) % q == (y + t) % q,
{
    vstd::arithmetic::div_mod::lemma_add_mod_noop(x, t, q);
    vstd::arithmetic::div_mod::lemma_add_mod_noop(y, t, q);
}

/// The heart of every recovery step.  If `x` is `floor(q/p) * v + eps`
/// reduced modulo `q`, and the disturbance `eps * p - (q % p) * v` is
/// smaller than half of `q` in magnitude, then rounding `x` by `p/q`
/// returns exactly `v` modulo `p`.
pub proof fn lemma_round_scale_mod(q: int, p: int, v: int, eps: int, x: int)
    requires
        1 <= p <= q,
        0 <= v,
        x == ((q / p) * v + eps) % q,
        -q < 2 * (eps * p - (q % p) * v),
        2 * (eps * p - (q % p) * v) < q,
    ensures
        round_scale(x, p, q) == v % p,
{
    let dd = q / p;
    let rho = q % p;
    let y = dd * v + eps;
    let t = y / q;
    let delta = eps * p - rho * v;
    assert(q == p * dd + rho) by {
        vstd::arithmetic::div_mod::lemma_fundamental_div_mod(q, p);
    }
    assert(y == q * t + x) by {
        vstd::arithmetic::div_mod::lemma_fundamental_div_mod(y, q);
    }
    assert(0 <= x < q) by {
        vstd::arithmetic::div_mod::lemma_mod_bound(y, q);
    }
    let w = v - t * p;
    assert(x * p == q * w + delta) by (nonlinear_arith)
        requires
            x == y - q * t,
            y == dd * v + eps,
            q == p * dd + rho,
            delta == eps * p - rho * v,
            w == v - t * p;
    assert(w >= 0) by (nonlinear_arith)
        requires
            x * p == q * w + delta,
            0 <= x,
            1 <= p,
            q >= 1,
            2 * delta < q,
            -q < 2 * delta;
    assert(2 * x * p + q == (2 * q) * w + (2 * delta + q)) by (nonlinear_arith)
        requires
            x * p == q * w + delta;
    assert((2 * x * p + q) / (2 * q) == w) by {
        vstd::arithmetic::div_mod::lemma_fundamental_div_mod_converse(
            2 * x * p + q,
            2 * q,
            w,
            2 * delta + q,
        );
    }
    assert(w % p == v % p) by {
        assert(w == p * (-t) + v) by (nonlinear_arith)
            requires
                w == v - t * p;
        vstd::arithmetic::div_mod::lemma_mod_multiples_vanish(-t, v, p);
    }
}

/// The scalar ring laws on reduced values: adding and then subtracting a
/// value is the identity, one is a multiplicative unit, and subtracting
/// below zero wraps around to `q - 1`.
pub proof fn lemma_element_ring_laws(a: int, b: int, q: int)
    requires
        q > 1,
        0 <= a < q,
        0 <= b < q,
    ensures
        sub_val(add_val(a, b, q), b, q) == a,
        mul_val(a, 1, q) == a,
        sub_val(0, 1, q) == q - 1,
{
    lemma_sub_add_cancel(a, b, q);
    vstd::arithmetic::div_mod::lemma_small_mod(a as nat, q as nat);
}

} // verus!
