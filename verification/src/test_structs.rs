//! Example structs: one hierarchy whose flattening is written against this
//! crate's field bookkeeping, and the same hierarchy as plain data for
//! comparison with serde's own flattening.
pub mod fast_flatten;
pub mod serde_flatten;
