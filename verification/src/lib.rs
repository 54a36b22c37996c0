//! An in-memory hierarchical namespace of named directories and files,
//! addressable by slash-delimited paths, with a byte-level persistence codec.
pub mod codec;
pub mod fs;
pub mod path;

pub use codec::DecodingError;
pub use fs::Directory;
pub use fs::File;
pub use fs::FileSystem;
pub use fs::PathNotFound;
