//! Algebraic facts about the curve operations, stated over their specifications.
use vstd::prelude::*;
use vstd::arithmetic::div_mod::*;
use crate::curve::{ECcurve, ECpoint};

verus! {

/// The point at infinity is neutral: it doubles to itself, and adding it on either side
/// gives the other operand unchanged.
pub proof fn lemma_identity_neutral(c: ECcurve, q: ECpoint)
    ensures
        c.doubled(ECpoint::Infinity) == ECpoint::Infinity,
        c.sum(q, ECpoint::Infinity) == q,
        c.sum(ECpoint::Infinity, q) == q,
{
}

/// A finite affine point on the curve plus its negation `(x, (p - y mod p) mod p, 1)` is the
/// point at infinity. Where `2*y` is zero modulo `p` the two points coincide, and the sum is a
/// doubling that ends at infinity.
pub proof fn lemma_point_plus_negation(c: ECcurve, x: i64, y: i64)
    requires
        c.wf(),
        c.on_curve(ECpoint::Finite { x, y, z: 1 }),
    ensures
        c.sum(
            ECpoint::Finite { x, y, z: 1 },
            ECpoint::Finite { x, y: ((c.p - (y as int) % (c.p as int)) % (c.p as int)) as i64, z: 1 },
        ) == ECpoint::Infinity,
{
    let p = c.p as int;
    let yr = (y as int) % p;
    let ny = (p - yr) % p;
    lemma_mul_mod_noop_right(2, y as int, p);
    lemma_mod_twice(y as int, p);
    lemma_mod_twice(p - yr, p);
    lemma_mod_twice(2 * y, p);
    if p == 1 {
        assert(yr == 0 && ny == 0);
        assert((2 * y) % p == 0);
    } else {
        lemma_small_mod(1, p as nat);
        if yr == 0 {
            lemma_mod_self_0(p);
            assert((2 * yr) % p == 0);
        } else {
            lemma_small_mod((p - yr) as nat, p as nat);
            if yr == ny {
                lemma_mod_self_0(p);
                assert(2 * yr == p);
            }
        }
    }
    assert(yr == ny ==> (2 * y) % p == 0);
}

/// Multiplying by zero gives the point at infinity, and by one gives the point unchanged.
pub proof fn lemma_scaled_zero_one(c: ECcurve, q: ECpoint)
    ensures
        c.scaled(0, q) == ECpoint::Infinity,
        c.scaled(1, q) == q,
{
    assert(c.mul_steps(ECpoint::Infinity, q, 1) == c.mul_steps(c.sum(ECpoint::Infinity, q), c.doubled(q), 0));
}

/// Scalar multiplication agrees with addition, `(k1 + k2) * q == k1 * q + k2 * q`, in the
/// cases `k1 == 0`, `k2 == 0` and `k1 == k2 == 1`, as exact coordinates.
pub proof fn lemma_scaled_sum_small(c: ECcurve, k1: nat, k2: nat, q: ECpoint)
    requires
        k1 == 0 || k2 == 0 || (k1 == 1 && k2 == 1),
    ensures
        c.scaled(k1 + k2, q) == c.sum(c.scaled(k1, q), c.scaled(k2, q)),
{
    lemma_scaled_zero_one(c, q);
    if k1 == 1 && k2 == 1 {
        let d = c.doubled(q);
        assert(c.mul_steps(ECpoint::Infinity, q, 2) == c.mul_steps(ECpoint::Infinity, d, 1));
        assert(c.mul_steps(ECpoint::Infinity, d, 1) == c.mul_steps(c.sum(ECpoint::Infinity, d), c.doubled(d), 0));
    }
}

} // verus!
