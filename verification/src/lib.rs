//! A verified Buchberger-style Groebner basis library for multivariate
//! polynomials over a prime-modulus coefficient field.
//!
//! The crate is organised leaf to root: `order` holds the term-order
//! policy and its mathematical comparison functions, `exponent` the
//! monomial abstraction with a dense (`vec_exponent`) and a packed
//! (`bit_packed_exponent`) representation, `modular` and `int_mod_p` the
//! coefficient field, `poly` canonical polynomials and their algebra,
//! `reduce` multivariate division with remainder, and `engine` the
//! S-polynomial generator and the basis saturation loop. `primes`, `lcg`
//! and `cyclic` are the small collaborators that supply moduli and
//! benchmark inputs.

pub mod bit_packed_exponent;
pub mod config;
pub mod cyclic;
pub mod engine;
pub mod exponent;
pub mod int_mod_p;
pub mod lcg;
pub mod modular;
pub mod order;
pub mod poly;
pub mod primes;
pub mod reduce;
pub mod vec_exponent;

pub use bit_packed_exponent::BitPackedExponent;
pub use config::GrobnerConfig;
pub use config::GrobnerError;
pub use engine::are_bases_equivalent;
pub use engine::naive_grobner_basis;
pub use exponent::IExponent;
pub use int_mod_p::IOrdered;
pub use int_mod_p::IntModP;
pub use order::TermOrder;
pub use poly::Polynomial;
pub use poly::Term;
pub use reduce::ReductionPolicy;
pub use vec_exponent::VecExponent;
