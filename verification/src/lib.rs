//! Multimodal dataset archives: one unit of training data paired with a
//! block-deduplicated, append-only history of annotation revisions.

pub mod block;
pub mod codec;
pub mod container;
pub mod error;
pub mod hash;
pub mod revlog;
pub mod table;
pub mod text;

pub use block::{DataBlock, BLOCK_SIZE};
pub use container::archive::{
    extract_anno_from_mda, extract_data_from_mda, extract_train_from_mda,
    get_anno_revlog_from_mda, read_info_from_mda, update_anno_in_mda, update_revlog,
    write_data_to_mda,
};
pub use container::format::{DataType, Header, MDAIndex, TrainingData};
pub use error::{CorruptReason, MdaError};
pub use hash::{compute_nodeid, NULLID};
pub use revlog::model::{Entry, Revlog, RevlogHeader, RevlogIndex};
pub use revlog::ops::{get_full_data, reconstruct};
pub use table::{nodeid_to_short_hex, print_revlog_headers, read_anno_from_mda};
