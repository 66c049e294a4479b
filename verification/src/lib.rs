//! Arithmetic in the scalar field of the BN128 curve.
//!
//! A field element is an integer modulo a fixed prime, always held as its
//! canonical representative in `[0, modulus() - 1]`. Every operation states
//! its result over the mathematical integers, and the modulus is proved
//! prime, so that every element but zero has its inverse.
//!
//! - [`field`] is what a prime field offers, as a trait with its contract.
//! - [`bn128`] is the field itself: the element type, its arithmetic, its
//!   inverse, and its conversions to bytes, to decimal text and to the scalar
//!   of the proof backend.
//! - [`utils`] is the extended Euclidean algorithm that inversion rests on.
//! - [`laws`] states what holds of the operations taken together.
//! - [`encoding`], [`euclid`], [`modular`] and [`primality`] are the
//!   mathematics behind the contracts; [`certificate`] is the data that shows
//!   the modulus prime.
//! - [`bigint`] and [`bellman`] say what is taken on trust of `num_bigint`
//!   and of `pairing_ce`.
//! - [`proof_system`] names the proof backends.

pub mod bellman;
pub mod bigint;
pub mod bn128;
pub mod certificate;
pub mod encoding;
pub mod euclid;
pub mod field;
pub mod laws;
pub mod modular;
pub mod primality;
pub mod proof_system;
pub mod utils;
