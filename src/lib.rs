//! Collaborative zero-knowledge proving over the BLS12-377 scalar field:
//! KZG polynomial commitments, a PLONK-style batched identity protocol, and a
//! round-structured multi-party variant driven by additive secret sharing.
use vstd::prelude::*;

pub mod field;
pub mod poly;
pub mod kzg;
pub mod plonk;
pub mod apps;
pub mod distributed_plonk;
pub mod vector_commitment;
pub mod record_commitment;

verus! {

} // verus!
