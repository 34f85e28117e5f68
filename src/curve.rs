//! Prime-field arithmetic and point arithmetic on `y^2 = x^3 + a*x + b (mod p)`.
use vstd::prelude::*;
use vstd::arithmetic::div_mod::*;
use vstd::arithmetic::mul::*;
use vstd::arithmetic::power::*;
use crate::modular::{coprime, lemma_coprime_mod, modinverse, residue};

verus! {

/// Why a field operation could not be carried out.
#[derive(Clone, Copy, Debug, PartialEq, Eq, Structural)]
pub enum FieldError {
    /// The divisor shares a nontrivial factor with the modulus.
    NotInvertible,
}

/// A curve point in Jacobian coordinates: `Finite { x, y, z }` stands for the affine point
/// `(x / z^2, y / z^3)`; `Infinity` is the point at infinity, the identity of the group.
#[derive(Clone, Copy, Debug, PartialEq, Eq, Structural)]
pub enum ECpoint {
    Finite { x: i64, y: i64, z: i64 },
    Infinity,
}

impl ECpoint {
    /// The finite point with Jacobian coordinates `(x, y, z)`; affine points take `z = 1`.
    pub fn new(x: i64, y: i64, z: i64) -> (r: ECpoint)
        ensures
            r == (ECpoint::Finite { x, y, z }),
    {
        ECpoint::Finite { x, y, z }
    }
}

/// A short Weierstrass curve `y^2 = x^3 + a*x + b` over the integers modulo `p`.
#[derive(Clone, Copy, Debug, PartialEq, Eq, Structural)]
pub struct ECcurve {
    pub p: i64,
    pub a: i64,
    pub b: i64,
}

/// Field product of `u` and `v` modulo `p`.
pub open spec fn fmul(p: int, u: int, v: int) -> int {
    (u * v) % p
}

/// Field sum of `u` and `v` modulo `p`.
pub open spec fn fadd(p: int, u: int, v: int) -> int {
    (u + v) % p
}

/// Field difference of `u` and `v` modulo `p`.
pub open spec fn fsub(p: int, u: int, v: int) -> int {
    (u - v) % p
}

impl ECcurve {
    /// Jacobian doubling, every intermediate reduced modulo `p`:
    /// `S = 4*X*Y^2`, `M = 3*X^2 + a*Z^4`, `X' = M^2 - 2*S`, `Y' = M*(S - X') - 8*Y^4`,
    /// `Z' = 2*Y*Z`. Where `Z'` is zero modulo `p` (a point with `2*Y` or `Z` zero, such as a
    /// point of order two) the double is the point at infinity, which also doubles to itself.
    pub open spec fn doubled(self, q: ECpoint) -> ECpoint {
        let p = self.p as int;
        match q {
            ECpoint::Infinity => ECpoint::Infinity,
            ECpoint::Finite { x, y, z } => {
                let yy = fmul(p, y as int, y as int);
                let s = fmul(p, fmul(p, 4, x as int), yy);
                let z2 = fmul(p, z as int, z as int);
                let z4 = fmul(p, z2, z2);
                let m = fadd(p, fmul(p, 3, fmul(p, x as int, x as int)), fmul(p, self.a as int, z4));
                let nx = fsub(p, fmul(p, m, m), fmul(p, 2, s));
                let ny = fsub(p, fmul(p, m, fsub(p, s, nx)), fmul(p, 8, fmul(p, yy, yy)));
                let nz = fmul(p, fmul(p, 2, y as int), z as int);
                if nz == 0 {
                    ECpoint::Infinity
                } else {
                    ECpoint::Finite { x: nx as i64, y: ny as i64, z: nz as i64 }
                }
            },
        }
    }

    /// Jacobian addition. An operand at infinity gives the other operand unchanged. Otherwise
    /// `U1 = X1*Z2^2`, `U2 = X2*Z1^2`, `S1 = Y1*Z2^3`, `S2 = Y2*Z1^3`; equal `U` and equal `S`
    /// double the first operand, equal `U` and different `S` give the point at infinity, and
    /// else, with `H = U2 - U1` and `R = S2 - S1`: `X3 = R^2 - H^3 - 2*U1*H^2`,
    /// `Y3 = R*(U1*H^2 - X3) - S1*H^3`, `Z3 = H*Z1*Z2`, all modulo `p`.
    pub open spec fn sum(self, q1: ECpoint, q2: ECpoint) -> ECpoint {
        let p = self.p as int;
        match q1 {
            ECpoint::Infinity => q2,
            ECpoint::Finite { x: x1, y: y1, z: z1 } => match q2 {
                ECpoint::Infinity => q1,
                ECpoint::Finite { x: x2, y: y2, z: z2 } => {
                    let z1s = fmul(p, z1 as int, z1 as int);
                    let z2s = fmul(p, z2 as int, z2 as int);
                    let u1 = fmul(p, x1 as int, z2s);
                    let u2 = fmul(p, x2 as int, z1s);
                    let s1 = fmul(p, fmul(p, y1 as int, z2s), z2 as int);
                    let s2 = fmul(p, fmul(p, y2 as int, z1s), z1 as int);
                    if u1 == u2 {
                        if s1 == s2 {
                            self.doubled(q1)
                        } else {
                            ECpoint::Infinity
                        }
                    } else {
                        let h = fsub(p, u2, u1);
                        let r = fsub(p, s2, s1);
                        let h2 = fmul(p, h, h);
                        let h3 = fmul(p, h2, h);
                        let nx = fsub(p, fsub(p, fmul(p, r, r), h3), fmul(p, fmul(p, 2, u1), h2));
                        let ny = fsub(p, fmul(p, r, fsub(p, fmul(p, u1, h2), nx)), fmul(p, s1, h3));
                        let nz = fmul(p, h, fmul(p, z1 as int, z2 as int));
                        ECpoint::Finite { x: nx as i64, y: ny as i64, z: nz as i64 }
                    }
                },
            },
        }
    }

    /// Double-and-add from the least significant bit of `k`: for each bit, add `base` to
    /// `acc` when the bit is set, then double `base`.
    pub open spec fn mul_steps(self, acc: ECpoint, base: ECpoint, k: nat) -> ECpoint
        decreases k,
    {
        if k == 0 {
            acc
        } else {
            let next = if k % 2 == 1 {
                self.sum(acc, base)
            } else {
                acc
            };
            self.mul_steps(next, self.doubled(base), k / 2)
        }
    }

    /// `k` times `q` by double-and-add, starting from the point at infinity.
    pub open spec fn scaled(self, k: nat, q: ECpoint) -> ECpoint {
        self.mul_steps(ECpoint::Infinity, q, k)
    }

    /// `q` satisfies the curve equation in Jacobian form,
    /// `Y^2 = X^3 + a*X*Z^4 + b*Z^6 (mod p)`, which for `Z = 1` is `y^2 = x^3 + a*x + b`.
    /// The point at infinity lies on every curve.
    pub open spec fn on_curve(self, q: ECpoint) -> bool {
        match q {
            ECpoint::Infinity => true,
            ECpoint::Finite { x, y, z } => {
                let p = self.p as int;
                let z2 = z * z;
                let z4 = z2 * z2;
                let z6 = z4 * z2;
                (y * y) % p == ((x * x) * x + (self.a * x) * z4 + self.b * z6) % p
            },
        }
    }

    /// The modulus is positive.
    pub open spec fn wf(&self) -> bool {
        self.p > 0
    }

    /// A canonical element of the field: an integer in `[0, p)`.
    pub open spec fn is_elem(&self, v: int) -> bool {
        0 <= v < self.p
    }

    /// The curve with modulus `p` and coefficients `a`, `b`.
    pub fn new(p: i64, a: i64, b: i64) -> (r: ECcurve)
        requires
            p > 0,
        ensures
            r == (ECcurve { p, a, b }),
    {
        ECcurve { p, a, b }
    }

    /// `(a * b) mod p`, in `[0, p)`, for any two integers.
    pub fn field_mul(&self, a: i64, b: i64) -> (r: i64)
        requires
            self.wf(),
        ensures
            r == fmul(self.p as int, a as int, b as int),
            self.is_elem(r as int),
    {
        let ai = a as i128;
        let bi = b as i128;
        assert(-0x4000_0000_0000_0000_0000_0000_0000_0000 <= ai * bi <= 0x4000_0000_0000_0000_0000_0000_0000_0000)
            by (nonlinear_arith)
            requires
                -0x8000_0000_0000_0000 <= ai <= 0x8000_0000_0000_0000,
                -0x8000_0000_0000_0000 <= bi <= 0x8000_0000_0000_0000,
        ;
        let prod = ai * bi;
        match prod.checked_rem_euclid(self.p as i128) {
            Some(r) => r as i64,
            None => 0,
        }
    }

    /// `(a + b) mod p` for two canonical elements.
    fn field_add(&self, a: i64, b: i64) -> (r: i64)
        requires
            self.wf(),
            self.is_elem(a as int),
            self.is_elem(b as int),
        ensures
            r == fadd(self.p as int, a as int, b as int),
            self.is_elem(r as int),
    {
        if a >= self.p - b {
            proof {
                lemma_fundamental_div_mod_converse_mod(a + b, self.p as int, 1, a + b - self.p);
            }
            a - (self.p - b)
        } else {
            proof {
                lemma_fundamental_div_mod_converse_mod(a + b, self.p as int, 0, a + b);
            }
            a + b
        }
    }

    /// `(a - b) mod p` for two canonical elements.
    fn field_sub(&self, a: i64, b: i64) -> (r: i64)
        requires
            self.wf(),
            self.is_elem(a as int),
            self.is_elem(b as int),
        ensures
            r == fsub(self.p as int, a as int, b as int),
            self.is_elem(r as int),
    {
        if a >= b {
            proof {
                lemma_fundamental_div_mod_converse_mod(a - b, self.p as int, 0, a - b);
            }
            a - b
        } else {
            proof {
                lemma_fundamental_div_mod_converse_mod(a - b, self.p as int, -1, a - b + self.p);
            }
            a + (self.p - b)
        }
    }

    /// `num / den` in the field: the element `r` in `[0, p)` with `r * den` congruent to `num`,
    /// which exists exactly when `den` is coprime with `p`.
    pub fn field_div(&self, num: i64, den: i64) -> (r: Result<i64, FieldError>)
        requires
            self.wf(),
        ensures
            r.is_ok() == coprime(den as int, self.p as int),
            r matches Ok(v) ==> self.is_elem(v as int) && (v * den) % (self.p as int) == (num
                as int) % (self.p as int),
            r matches Err(e) ==> e == FieldError::NotInvertible,
    {
        match modinverse(den, self.p) {
            Some(inv) => {
                let v = self.field_mul(num, inv);
                proof {
                    let p = self.p as int;
                    lemma_mul_mod_noop_left(num * inv, den as int, p);
                    lemma_mul_is_associative(num as int, inv as int, den as int);
                    lemma_mul_mod_noop_right(num as int, inv * den, p);
                    lemma_mul_is_commutative(inv as int, den as int);
                    lemma_mul_mod_noop_right(num as int, 1, p);
                }
                Ok(v)
            },
            None => Err(FieldError::NotInvertible),
        }
    }

    /// `num` to the power `power`, modulo `p`, in `[0, p)`, by square-and-multiply over the
    /// bits of `power`.
    pub fn field_exp(&self, num: i64, power: i64) -> (r: i64)
        requires
            self.wf(),
            power >= 0,
        ensures
            r == pow(num as int, power as nat) % (self.p as int),
            self.is_elem(r as int),
    {
        let ghost p = self.p as int;
        let ghost target = pow(num as int, power as nat) % p;
        let mut acc = residue(1, self.p);
        let mut base = residue(num, self.p);
        let mut e: i64 = power;
        proof {
            lemma_pow_mod_noop(num as int, power as nat, p);
            lemma_mul_mod_noop_left(1, pow(base as int, power as nat), p);
        }
        while e > 0
            invariant
                self.wf(),
                p == self.p,
                0 <= e,
                self.is_elem(acc as int),
                self.is_elem(base as int),
                (acc * pow(base as int, e as nat)) % p == target,
            decreases e,
        {
            let ghost b = base as int;
            let ghost half = (e / 2) as nat;
            let ghost rest = pow(b * b, half);
            proof {
                lemma_pow_halving(b, e as nat);
            }
            if e % 2 == 1 {
                let next = self.field_mul(acc, base);
                proof {
                    lemma_mul_mod_noop_left(acc * b, rest, p);
                    lemma_mul_is_associative(acc as int, b, rest);
                    lemma_mul_is_commutative(b, rest);
                }
                acc = next;
            }
            let sq = self.field_mul(base, base);
            proof {
                lemma_pow_mod_noop(b * b, half, p);
                lemma_mul_mod_noop_right(acc as int, pow(sq as int, half), p);
                lemma_mul_mod_noop_right(acc as int, rest, p);
            }
            base = sq;
            e = e / 2;
        }
        proof {
            lemma_pow0(base as int);
            lemma_small_mod(acc as nat, p as nat);
        }
        acc
    }
}

/// Splitting off the lowest bit of the exponent:
/// `b^e == (b*b)^(e/2) * b^(e%2)`.
proof fn lemma_pow_halving(b: int, e: nat)
    ensures
        pow(b, e) == pow(b * b, e / 2) * (if e % 2 == 1 {
            b
        } else {
            1
        }),
{
    let half = e / 2;
    let bit = e % 2;
    lemma_pow_adds(b, 2 * half, bit);
    lemma_pow_multiplies(b, 2, half);
    lemma_square_is_pow2(b);
    lemma_pow0(b);
    lemma_pow1(b);
    assert(2 * half + bit == e);
}

impl ECcurve {
    /// The point at infinity.
    pub fn identity(&self) -> (r: ECpoint)
        ensures
            r == ECpoint::Infinity,
    {
        ECpoint::Infinity
    }

    /// Whether `q` lies on the curve.
    pub fn touches(&self, q: &ECpoint) -> (r: bool)
        requires
            self.wf(),
        ensures
            r == self.on_curve(*q),
    {
        match *q {
            ECpoint::Infinity => true,
            ECpoint::Finite { x, y, z } => {
                let yy = self.field_mul(y, y);
                let x3 = self.field_mul(self.field_mul(x, x), x);
                let z2 = self.field_mul(z, z);
                let z4 = self.field_mul(z2, z2);
                let z6 = self.field_mul(z4, z2);
                let axz4 = self.field_mul(self.field_mul(self.a, x), z4);
                let bz6 = self.field_mul(self.b, z6);
                let rhs = self.field_add(self.field_add(x3, axz4), bz6);
                proof {
                    let p = self.p as int;
                    let zz = z * z;
                    let zzzz = zz * zz;
                    lemma_mul_mod_noop_left(x * x, x as int, p);
                    lemma_mul_mod_noop(zz, zz, p);
                    lemma_mul_mod_noop(zzzz, zz, p);
                    lemma_mul_mod_noop(self.a * x, zzzz, p);
                    lemma_mul_mod_noop_right(self.b as int, zzzz * zz, p);
                    lemma_add_mod_noop((x * x) * x, (self.a * x) * zzzz, p);
                    lemma_add_mod_noop((x * x) * x + (self.a * x) * zzzz, self.b * (zzzz * zz), p);
                    lemma_mod_twice((x * x) * x + (self.a * x) * zzzz, p);
                    lemma_mod_twice(self.b * (zzzz * zz), p);
                }
                yy == rhs
            },
        }
    }

    /// The slope `(3*x^2 + a) / (2*y)` of the tangent at the finite point `q`, read through
    /// its coordinates `x` and `y`: the element `s` in `[0, p)` with `s * 2*y` congruent to
    /// `3*x^2 + a`, which exists exactly when `2*y` is coprime with `p`.
    pub fn tangent(&self, q: &ECpoint) -> (r: Result<i64, FieldError>)
        requires
            self.wf(),
            q is Finite,
        ensures
            r.is_ok() == coprime(2 * q->y, self.p as int),
            r matches Ok(s) ==> self.is_elem(s as int) && (s * (2 * q->y)) % (self.p as int) == (3
                * (q->x * q->x) + self.a) % (self.p as int),
            r matches Err(e) ==> e == FieldError::NotInvertible,
    {
        let (x, y) = match *q {
            ECpoint::Finite { x, y, .. } => (x, y),
            ECpoint::Infinity => (0, 0),
        };
        let num = self.field_add(self.field_mul(3, self.field_mul(x, x)), residue(self.a, self.p));
        let den = self.field_mul(2, y);
        let r = self.field_div(num, den);
        proof {
            let p = self.p as int;
            lemma_coprime_mod(2 * y, p);
            lemma_mul_mod_noop_right(3, x * x, p);
            lemma_add_mod_noop(3 * (x * x), self.a as int, p);
            lemma_mod_twice(3 * (x * x), p);
            lemma_small_mod(num as nat, p as nat);
            if let Ok(s) = r {
                lemma_mul_mod_noop_right(s as int, 2 * y, p);
            }
        }
        r
    }

    /// Doubles `q` with the Jacobian formulas; a double whose `z` is zero modulo `p`, and the
    /// double of the point at infinity, is the point at infinity.
    pub fn double(&self, q: ECpoint) -> (r: ECpoint)
        requires
            self.wf(),
        ensures
            r == self.doubled(q),
    {
        match q {
            ECpoint::Infinity => q,
            ECpoint::Finite { x, y, z } => {
                let yy = self.field_mul(y, y);
                let s = self.field_mul(self.field_mul(4, x), yy);
                let z2 = self.field_mul(z, z);
                let z4 = self.field_mul(z2, z2);
                let m = self.field_add(self.field_mul(3, self.field_mul(x, x)), self.field_mul(self.a, z4));
                let nx = self.field_sub(self.field_mul(m, m), self.field_mul(2, s));
                let ny = self.field_sub(
                    self.field_mul(m, self.field_sub(s, nx)),
                    self.field_mul(8, self.field_mul(yy, yy)),
                );
                let nz = self.field_mul(self.field_mul(2, y), z);
                if nz == 0 {
                    ECpoint::Infinity
                } else {
                    ECpoint::Finite { x: nx, y: ny, z: nz }
                }
            },
        }
    }

    /// Adds `q1` and `q2` with the Jacobian formulas, doubling when they are the same point
    /// and giving the point at infinity when they are inverse to each other.
    pub fn add(&self, q1: ECpoint, q2: ECpoint) -> (r: ECpoint)
        requires
            self.wf(),
        ensures
            r == self.sum(q1, q2),
    {
        match q1 {
            ECpoint::Infinity => q2,
            ECpoint::Finite { x: x1, y: y1, z: z1 } => match q2 {
                ECpoint::Infinity => q1,
                ECpoint::Finite { x: x2, y: y2, z: z2 } => {
                    let z1s = self.field_mul(z1, z1);
                    let z2s = self.field_mul(z2, z2);
                    let u1 = self.field_mul(x1, z2s);
                    let u2 = self.field_mul(x2, z1s);
                    let s1 = self.field_mul(self.field_mul(y1, z2s), z2);
                    let s2 = self.field_mul(self.field_mul(y2, z1s), z1);
                    if u1 == u2 {
                        if s1 == s2 {
                            self.double(q1)
                        } else {
                            self.identity()
                        }
                    } else {
                        let h = self.field_sub(u2, u1);
                        let r = self.field_sub(s2, s1);
                        let h2 = self.field_mul(h, h);
                        let h3 = self.field_mul(h2, h);
                        let nx = self.field_sub(
                            self.field_sub(self.field_mul(r, r), h3),
                            self.field_mul(self.field_mul(2, u1), h2),
                        );
                        let ny = self.field_sub(
                            self.field_mul(r, self.field_sub(self.field_mul(u1, h2), nx)),
                            self.field_mul(s1, h3),
                        );
                        let nz = self.field_mul(h, self.field_mul(z1, z2));
                        ECpoint::Finite { x: nx, y: ny, z: nz }
                    }
                },
            },
        }
    }

    /// `k` times `q` by double-and-add over the bits of `k`, least significant first,
    /// doubling once per bit while bits remain.
    pub fn mul(&self, k: u32, q: ECpoint) -> (r: ECpoint)
        requires
            self.wf(),
        ensures
            r == self.scaled(k as nat, q),
    {
        let mut acc = self.identity();
        let mut base = q;
        let mut rest: u32 = k;
        while rest != 0
            invariant
                self.wf(),
                self.mul_steps(acc, base, rest as nat) == self.scaled(k as nat, q),
            decreases rest,
        {
            if rest % 2 == 1 {
                acc = self.add(acc, base);
            }
            let ghost stepped = self.doubled(base);
            rest = rest / 2;
            if rest != 0 {
                base = self.double(base);
            } else {
                assert(self.mul_steps(acc, stepped, 0) == self.mul_steps(acc, base, 0));
            }
        }
        acc
    }
}

} // verus!
