//! Construction and verification of orthogonal arrays (OAs) and strong
//! orthogonal arrays (SOAs): combinatorial point sets used as stratified
//! sampling designs for Monte Carlo integration and experimental design.
//!
//! The crate provides number-theoretic constructors (Bose, Bush) that build an
//! OA's point matrix, pipelines that transform an OA into an SOA (He-Tang,
//! Liu-Liu), and exhaustive verifiers that check whether a candidate matrix
//! actually satisfies the orthogonal-array or strong-orthogonal-array
//! stratification guarantees.

pub mod constructors;
pub mod galois;
pub mod oa;
pub mod perm_vec;
pub mod soa;
pub mod utils;
