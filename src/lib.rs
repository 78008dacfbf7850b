//! A small content-addressed object store in the style of a version-control
//! system: typed object framing, SHA-1 addresses, zlib storage, and the
//! canonical binary encoding of directory trees.
pub mod codec;
pub mod commit;
pub mod error;
pub mod hash;
pub mod object;
pub mod tree;
