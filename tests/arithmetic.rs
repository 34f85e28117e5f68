use num_integer::Integer;
use weierstrass::curve::{ECcurve, FieldError};
use weierstrass::modular::{egcd, modinverse, residue};

fn small_curve() -> ECcurve {
    ECcurve::new(17, 2, 2)
}

#[test]
fn egcd_bezout_identity() {
    let (g, x, y) = egcd(240, 46);
    assert_eq!(g, 2);
    assert_eq!(240 * x + 46 * y, 2);
    assert_eq!(egcd(0, 5), (5, 0, 1));
    assert_eq!(egcd(7, 0).0, 7);
    assert_eq!(egcd(0, 0).0, 0);
}

#[test]
fn egcd_follows_the_recursion() {
    assert_eq!(egcd(3, 17), (1, 6, -1));
    assert_eq!(egcd(7, 0), (7, 1, 0));
    assert_eq!(egcd(0, -5), (-5, 0, 1));
    assert_eq!(egcd(-3, 6), (-3, 1, 0));
    assert_eq!(egcd(3, -17), (1, 6, 1));
}

#[test]
fn egcd_negative_arguments() {
    for a in -60i64..60 {
        for b in -60i64..60 {
            let (g, x, y) = egcd(a, b);
            assert_eq!(g.abs(), a.gcd(&b));
            assert_eq!(a * x + b * y, g);
        }
    }
}

#[test]
fn egcd_matches_gcd_on_a_range() {
    for a in 0i64..60 {
        for b in 0i64..60 {
            let (g, x, y) = egcd(a, b);
            assert_eq!(g, a.gcd(&b));
            assert_eq!(a * x + b * y, g);
        }
    }
}

#[test]
fn egcd_large_inputs() {
    let a = i64::MAX;
    let b = i64::MAX - 1;
    let (g, x, y) = egcd(a, b);
    assert_eq!(g, 1);
    assert_eq!((a as i128) * (x as i128) + (b as i128) * (y as i128), 1);
}

#[test]
fn modinverse_of_three_mod_seventeen() {
    assert_eq!(modinverse(3, 17), Some(6));
    assert_eq!(modinverse(-3, 17), Some(11));
    assert_eq!(modinverse(20, 17), Some(6));
}

#[test]
fn modinverse_none_without_coprimality() {
    assert_eq!(modinverse(4, 8), None);
    assert_eq!(modinverse(0, 17), None);
    assert_eq!(modinverse(34, 17), None);
    assert_eq!(modinverse(6, 9), None);
}

#[test]
fn modinverse_modulus_one() {
    assert_eq!(modinverse(5, 1), Some(0));
}

#[test]
fn modinverse_agrees_with_gcd() {
    for a in -40i64..40 {
        for m in 1i64..30 {
            let r = modinverse(a, m);
            if a.gcd(&m) == 1 {
                let x = r.expect("coprime values have an inverse");
                assert!(0 <= x && x < m);
                assert_eq!((a * x).rem_euclid(m), 1 % m);
            } else {
                assert_eq!(r, None);
            }
        }
    }
}

#[test]
fn residue_is_euclidean() {
    assert_eq!(residue(-1, 17), 16);
    assert_eq!(residue(35, 17), 1);
    assert_eq!(residue(i64::MIN, 3), i64::MIN.rem_euclid(3));
}

#[test]
fn field_mul_reduces() {
    let c = small_curve();
    assert_eq!(c.field_mul(3, 5), 15);
    assert_eq!(c.field_mul(4, 5), 3);
    assert_eq!(c.field_mul(-3, 5), 2);
    let big = c.field_mul(i64::MAX, i64::MAX);
    assert_eq!(big as i128, ((i64::MAX as i128) * (i64::MAX as i128)).rem_euclid(17));
}

#[test]
fn field_div_eight_by_three() {
    let c = small_curve();
    assert_eq!(c.field_div(8, 3), Ok(14));
    assert_eq!(c.field_div(-8, 3), Ok(3));
}

#[test]
fn field_div_not_invertible() {
    let c = small_curve();
    assert_eq!(c.field_div(5, 0), Err(FieldError::NotInvertible));
    assert_eq!(c.field_div(5, 34), Err(FieldError::NotInvertible));
    let c15 = ECcurve::new(15, 1, 1);
    assert_eq!(c15.field_div(1, 5), Err(FieldError::NotInvertible));
    assert_eq!(c15.field_div(1, 7), Ok(13));
}

#[test]
fn field_div_times_den_gives_num() {
    let c = small_curve();
    for num in -20i64..40 {
        for den in -20i64..40 {
            match c.field_div(num, den) {
                Ok(v) => {
                    assert!(0 <= v && v < 17);
                    assert_eq!((v * den).rem_euclid(17), num.rem_euclid(17));
                }
                Err(FieldError::NotInvertible) => assert_eq!(den.rem_euclid(17), 0),
            }
        }
    }
}

#[test]
fn field_exp_small_powers() {
    let c = small_curve();
    assert_eq!(c.field_exp(4, 3), 13);
    assert_eq!(c.field_exp(4, 0), 1);
    assert_eq!(c.field_exp(0, 0), 1);
    assert_eq!(c.field_exp(-2, 3), 9);
    assert_eq!(c.field_exp(3, 16), 1);
    assert_eq!(c.field_exp(3, i64::MAX), 6);
    assert_eq!(c.field_exp(2, 1_000_000_007), 2i64.pow(1_000_000_007 % 8) % 17);
    let one = ECcurve::new(1, 0, 0);
    assert_eq!(one.field_exp(5, 2), 0);
}

#[test]
fn operations_are_deterministic() {
    let c = small_curve();
    assert_eq!(c.field_div(8, 3), c.field_div(8, 3));
    assert_eq!(c.field_exp(7, 11), c.field_exp(7, 11));
    assert_eq!(modinverse(5, 17), modinverse(5, 17));
    assert_eq!(egcd(99, 78), egcd(99, 78));
}
