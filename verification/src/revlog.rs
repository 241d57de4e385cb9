//! The revision log: a block-deduplicated, append-only store of the
//! annotation payload's history.

pub mod laws;
pub mod lemmas;
pub mod model;
pub mod ops;
pub mod pool;
pub mod validate;
