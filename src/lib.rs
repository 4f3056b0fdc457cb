//! Sparse-radix arithmetization of the SHA-256 round functions for a
//! PLONK-style constraint system with lookup tables.
//!
//! A 32-bit word is re-encoded in radix 7 (for `Ch`) or radix 4 (for `Maj`),
//! so that rotations and the boolean round functions become field additions
//! followed by table-driven normalization back to binary.

pub mod correctness;
pub mod cs;
pub mod gadget;
pub mod radix;
pub mod tables;
