//! Lattice-based private information retrieval built on a
//! Learning-With-Errors (LWE) arithmetic substrate.
//!
//! The crate is layered: modular scalars ([`element`]), matrices over them
//! ([`matrix`]), a Regev-style symmetric encryption scheme ([`regev`]), and
//! three PIR protocols of increasing sophistication ([`toypir`],
//! [`simplepir`], [`doublepir`]).

pub mod arith;
pub mod decomp;
pub mod doublepir;
pub mod element;
pub mod linalg;
pub mod matrix;
pub mod regev;
mod rng;
pub mod simplepir;
pub mod toypir;
pub mod zeroq;
