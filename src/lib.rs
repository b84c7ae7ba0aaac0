//! Folding engine for incrementally verifiable computation over relaxed R1CS.
//!
//! - [`field`]: the prime-field contract and two 64-bit fields meeting it.
//! - [`hash`] and [`circuit`]: the MiMC transcript, natively and on wires.
//! - [`r1cs`]: constraint systems, linear expressions, products and inverses.
//! - [`bignat`] and [`gadget`]: limb encoding across the field cycle, bits,
//!   select, points.
//! - [`relaxed`] and [`relaxed_gadget`]: relaxed instances and the hash of the
//!   running state, natively and in the circuit.
//! - [`folding`]: the cross term, the fold and the relaxed relation.
//! - [`kzg`]: the opening check of a polynomial commitment.
use vstd::prelude::*;

pub mod bignat;
pub mod circuit;
pub mod curve;
pub mod field;
pub mod folding;
pub mod gadget;
pub mod hash;
pub mod kzg;
pub mod msm;
pub mod pedersen;
pub mod r1cs;
pub mod relaxed;
pub mod relaxed_gadget;

verus! {

} // verus!
