//! Gadgets for rank-1 constraint systems over the BLS12-381 scalar field.

pub mod bigint;
pub mod common;
pub mod cs;
pub mod eddsa;
pub mod field;
pub mod laws;
pub mod laws_circuits;
pub mod lc;
pub mod merkle;
pub mod mimc;
pub mod poseidon;
pub mod state;
