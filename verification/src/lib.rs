//! Shamir's threshold secret sharing over a prime field.
//!
//! A secret is the constant term of a random polynomial of degree `t - 1`
//! over the integers modulo a prime. A share is a point on that polynomial.
//! Any `t` shares with distinct abscissae recover the secret by Lagrange
//! interpolation at zero; fewer than `t` say nothing of it.
//!
//! `generate` makes shares and `reconstruct` recovers the secret, with the
//! arithmetic of `field`. `modular`, `polynomial` and `interpolation` hold the
//! mathematics, and `laws`, `reorder` and `secrecy` what follows from it for
//! the two operations together. `args` reads integers from text.

pub mod args;
pub mod error;
pub mod field;
pub mod generate;
pub mod interpolation;
pub mod laws;
pub mod modular;
pub mod polynomial;
pub mod reconstruct;
pub mod reorder;
pub mod secrecy;
pub mod share;
