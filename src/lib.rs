//! Reading, writing and editing the file system of GameCube disc images.
//!
//! The file string table (FST) describes a tree of directories and files as
//! a depth-first stream of events; the modules here read it, write it, and
//! decide the in-place edits of an image, the layout of a new one and what
//! to copy out of one. Reading and writing the files themselves is left to
//! the caller.

pub mod banner;
pub mod boot;
pub mod bytes;
pub mod edit;
pub mod errors;
pub mod extract;
pub mod fst;
pub mod layout;
pub mod operate;
pub mod path;
pub mod roundtrip;
pub mod space;

pub use banner::{create_opening_bnr, CreateOpeningBnrError, GameInfo, GameRegion, RGB5A1Image};
pub use bytes::{align, read_u32, write_u32};
pub use edit::mkdir_all;
pub use errors::{OperateISOError, ReadISOError, ReadISOFilesError, WriteISOError};
pub use operate::IsoOp;
pub use space::ROM_SIZE;
