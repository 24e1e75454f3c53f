//! Verified core of a native client for the Ceph RADOS object store.

pub mod maps;
pub mod mon;
pub mod msgr;
pub mod numbers;
pub mod operation;
pub mod operation_laws;
pub mod osd;
pub mod protocol;
pub mod random;
pub mod sorting;
pub mod text;
pub mod text_laws;
pub mod types;
pub mod wire;

pub use operation::{ReadOp, WriteOp};
pub use types::{Error, OmapEntry, SparseExtent, SubOperationFlags};
