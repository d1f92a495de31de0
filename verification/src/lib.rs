//! Shamir secret sharing over a Galois ring `R = (Z/mZ)[x] / f(x)`.
//!
//! The layers, bottom-up:
//! - `integer`: integers of any size;
//! - `modint`: arithmetic modulo `m` and the inverse of a unit;
//! - `poly_spec`: the mathematical model of polynomials and its algebra;
//! - `polynomial`, `division`, `euclid`: polynomials over `Z/mZ`, long
//!   division and the extended Euclidean algorithm;
//! - `ring`, `inverse`: the ring `R` and inversion in it;
//! - `exceptional`: the exceptional set of `R`;
//! - `sharing`: the dealer and the combiner.
//!
//! What is proved of them beyond the contracts of the functions:
//! - `ring_laws`: `R` is a commutative ring;
//! - `poly_over_ring`: the factor theorem for polynomials over `R`;
//! - `lagrange`: the combiner gives back the secret that the dealer hid;
//! - `units`: which differences of points of the exceptional set are
//!   inverted.

pub mod division;
pub mod error;
pub mod euclid;
pub mod exceptional;
pub mod integer;
pub mod inverse;
pub mod lagrange;
pub mod modint;
pub mod poly_over_ring;
pub mod poly_spec;
pub mod polynomial;
pub mod ring;
pub mod ring_laws;
pub mod sharing;
pub mod units;

pub use crate::division::polynomial_long_division;
pub use crate::error::RingError;
pub use crate::euclid::extended_euclidean;
pub use crate::integer::Int;
pub use crate::modint::mod_inverse;
pub use crate::polynomial::Polynomial;
pub use crate::ring::{Element, GaloisRing};
