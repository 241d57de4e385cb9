//! The archive container: an index, an opaque descriptor, the training
//! payload, and the two regions of the annotation's revision log.

pub mod archive;
pub mod format;
pub mod laws;
pub mod regions;
