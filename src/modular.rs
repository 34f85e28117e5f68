//! Extended Euclidean algorithm and modular inverse.
use vstd::prelude::*;
use vstd::arithmetic::div_mod::*;

verus! {

/// `d` divides `n`; zero divides only zero.
pub open spec fn divides(d: int, n: int) -> bool {
    if d == 0 {
        n == 0
    } else {
        n % d == 0
    }
}

/// `a` and `m` share no divisor greater than one.
pub open spec fn coprime(a: int, m: int) -> bool {
    forall|d: int| d > 1 ==> !(#[trigger] divides(d, a) && divides(d, m))
}

/// The larger of `v` and one.
pub open spec fn at_least_one(v: int) -> int {
    if v > 1 {
        v
    } else {
        1
    }
}

/// A common divisor of `a` and `b` divides every integer combination of them.
pub proof fn lemma_divides_combination(d: int, a: int, b: int, s: int, t: int)
    requires
        d > 0,
        a % d == 0,
        b % d == 0,
    ensures
        (a * s + b * t) % d == 0,
{
    lemma_fundamental_div_mod(a, d);
    lemma_fundamental_div_mod(b, d);
    let k = (a / d) * s + (b / d) * t;
    assert(a * s + b * t == k * d) by (nonlinear_arith)
        requires
            a == d * (a / d),
            b == d * (b / d),
            k == (a / d) * s + (b / d) * t,
    ;
    lemma_mod_multiples_basic(k, d);
}

/// Reducing `a` modulo `m` keeps the divisors that `a` shares with `m`.
pub proof fn lemma_divides_mod(d: int, a: int, m: int)
    requires
        d > 0,
        m > 0,
        m % d == 0,
    ensures
        (a % m) % d == a % d,
{
    lemma_fundamental_div_mod(m, d);
    lemma_div_pos_is_pos(m, d);
    assert(m / d > 0) by {
        if m / d == 0 {
            assert(m == d * 0);
        }
    }
    lemma_mod_mod(a, d, m / d);
}

/// Coprimality with `m` depends only on the residue modulo `m`.
pub proof fn lemma_coprime_mod(a: int, m: int)
    requires
        m > 0,
    ensures
        coprime(a % m, m) == coprime(a, m),
{
    assert forall|d: int| d > 1 && divides(d, m) implies (divides(d, a % m) == divides(d, a)) by {
        lemma_divides_mod(d, a, m);
    }
}

/// The magnitude of `v`.
pub open spec fn abs(v: int) -> nat {
    if v >= 0 {
        v as nat
    } else {
        (-v) as nat
    }
}

/// The extended Euclidean algorithm: `(b, 0, 1)` when `a` is zero, and otherwise the result
/// `(g, x, y)` for `(b mod a, a)` turned into `(g, y - (b div a) * x, x)`, with Euclidean
/// division and remainder.
pub open spec fn egcd_spec(a: int, b: int) -> (int, int, int)
    decreases abs(a),
{
    if a == 0 {
        (b, 0, 1)
    } else {
        let (g, x, y) = egcd_spec(b % a, a);
        (g, y - (b / a) * x, x)
    }
}

/// Every quotient and coefficient that the extended Euclidean algorithm computes on `(a, b)`
/// fits in an `i64`.
pub open spec fn egcd_fits(a: int, b: int) -> bool
    decreases abs(a),
{
    if a == 0 {
        true
    } else {
        let q = b / a;
        let (g, x, y) = egcd_spec(b % a, a);
        &&& i64::MIN <= q <= i64::MAX
        &&& i64::MIN <= q * x <= i64::MAX
        &&& i64::MIN <= y - q * x <= i64::MAX
        &&& egcd_fits(b % a, a)
    }
}

/// The coefficients satisfy Bezout's identity: `a * x + b * y == g`.
pub proof fn lemma_egcd_bezout(a: int, b: int)
    ensures
        a * egcd_spec(a, b).1 + b * egcd_spec(a, b).2 == egcd_spec(a, b).0,
    decreases abs(a),
{
    if a != 0 {
        let rem = b % a;
        let q = b / a;
        lemma_egcd_bezout(rem, a);
        let (g, x, y) = egcd_spec(rem, a);
        lemma_fundamental_div_mod(b, a);
        assert(a * (y - q * x) + b * x == g) by (nonlinear_arith)
            requires
                b == a * q + rem,
                rem * x + a * y == g,
        ;
    }
}

/// On non-negative arguments the algorithm returns their greatest common divisor `g >= 0`,
/// which divides both, with coefficients bounded by the arguments, and it never leaves `i64`.
pub proof fn lemma_egcd_nonneg(a: int, b: int)
    requires
        0 <= a <= i64::MAX,
        0 <= b <= i64::MAX,
    ensures
        egcd_spec(a, b).0 >= 0,
        divides(egcd_spec(a, b).0, a),
        divides(egcd_spec(a, b).0, b),
        -at_least_one(b) <= egcd_spec(a, b).1 <= at_least_one(b),
        -at_least_one(a) <= egcd_spec(a, b).2 <= at_least_one(a),
        egcd_fits(a, b),
    decreases a,
{
    if a != 0 {
        let q = b / a;
        let rem = b % a;
        lemma_egcd_nonneg(rem, a);
        lemma_egcd_bezout(rem, a);
        let (g, x, y) = egcd_spec(rem, a);
        lemma_fundamental_div_mod(b, a);
        assert(q >= 0) by {
            lemma_div_pos_is_pos(b, a);
        }
        assert(g > 0);
        assert(-b <= q * x <= b) by (nonlinear_arith)
            requires
                b == a * q + rem,
                0 <= rem < a,
                q >= 0,
                -a <= x <= a,
        ;
        assert(-at_least_one(b) <= y - q * x <= at_least_one(b)) by (nonlinear_arith)
            requires
                b == a * q + rem,
                0 <= rem < a,
                q >= 0,
                -a <= x <= a,
                -at_least_one(rem) <= y <= at_least_one(rem),
                rem == 0 ==> x == 0 && y == 1,
        ;
        assert(q <= b) by (nonlinear_arith)
            requires
                b == a * q + rem,
                0 <= rem,
                a >= 1,
                q >= 0,
        ;
        if rem != 0 {
            lemma_divides_combination(g, a, rem, q, 1);
            assert(a * q + rem * 1 == b);
        } else {
            lemma_divides_combination(g, a, 0, q, 0);
            assert(a * q + 0 * 0 == b);
        }
    }
}

/// Extended Euclidean algorithm: returns `(g, x, y)` with `a * x + b * y == g`, exactly as
/// `egcd_spec` computes it. On non-negative arguments `g` is their greatest common divisor.
/// Every argument pair whose computation stays within `i64` is admitted.
pub fn egcd(a: i64, b: i64) -> (r: (i64, i64, i64))
    requires
        egcd_fits(a as int, b as int),
    ensures
        (r.0 as int, r.1 as int, r.2 as int) == egcd_spec(a as int, b as int),
        a * r.1 + b * r.2 == r.0,
        a >= 0 && b >= 0 ==> r.0 >= 0 && divides(r.0 as int, a as int) && divides(
            r.0 as int,
            b as int,
        ),
    decreases abs(a as int),
{
    proof {
        lemma_egcd_bezout(a as int, b as int);
        if a >= 0 && b >= 0 {
            lemma_egcd_nonneg(a as int, b as int);
        }
    }
    if a == 0 {
        (b, 0, 1)
    } else {
        let q = match b.checked_div_euclid(a) {
            Some(q) => q,
            None => 0,
        };
        let rem = match b.checked_rem_euclid(a) {
            Some(rem) => rem,
            None => 0,
        };
        let (g, x, y) = egcd(rem, a);
        (g, y - q * x, x)
    }
}

/// The residue of `a` modulo `m`, in `[0, m)`.
pub fn residue(a: i64, m: i64) -> (r: i64)
    requires
        m > 0,
    ensures
        r == a % m,
        0 <= r < m,
{
    match a.checked_rem_euclid(m) {
        Some(r) => r,
        None => 0,
    }
}

/// Inverse of `a` modulo `m`: `Some(x)` with `x` in `[0, m)` and `a * x` congruent to one,
/// exactly when `a` and `m` are coprime; `None` otherwise.
pub fn modinverse(a: i64, m: i64) -> (r: Option<i64>)
    requires
        m > 0,
    ensures
        r.is_some() == coprime(a as int, m as int),
        r matches Some(x) ==> 0 <= x < m && (a * x) % (m as int) == 1int % (m as int),
{
    let a0 = residue(a, m);
    proof {
        lemma_egcd_nonneg(a0 as int, m as int);
    }
    let (g, x, y) = egcd(a0, m);
    proof {
        lemma_coprime_mod(a as int, m as int);
    }
    if g != 1 {
        proof {
            assert(g != 0);
            assert(divides(g as int, a0 as int) && divides(g as int, m as int));
        }
        None
    } else {
        let inv = residue(x, m);
        proof {
            assert forall|d: int| d > 1 implies !(#[trigger] divides(d, a0 as int) && divides(d, m as int)) by {
                if divides(d, a0 as int) && divides(d, m as int) {
                    lemma_divides_combination(d, a0 as int, m as int, x as int, y as int);
                    lemma_small_mod(1, d as nat);
                }
            }
            lemma_mul_mod_noop_left(a as int, inv as int, m as int);
            lemma_mul_mod_noop_right(a0 as int, x as int, m as int);
            assert(a0 * x == (-y) * m + 1) by (nonlinear_arith)
                requires
                    a0 * x + m * y == 1,
            ;
            lemma_mod_multiples_vanish(-y, 1, m as int);
        }
        Some(inv)
    }
}

} // verus!
