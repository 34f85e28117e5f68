//! Point arithmetic on a short Weierstrass curve over a prime field,
//! with the modular arithmetic it rests on.
pub mod modular;
pub mod curve;
pub mod laws;
