//! A content-addressable object store in the style of a version-control
//! object database.
//!
//! Objects are blobs and trees. An object is framed as
//! `<tag> <length>\0<payload>`, addressed by the SHA-1 digest of the framed
//! bytes, and kept zlib-compressed under a key derived from the address.
//!
//! The library performs no I/O. [`store::store`] prepares what has to be
//! written and where; [`store::load`] and [`store::load_tree`] interpret what
//! was read back. The caller owns the storage.

pub mod address;
pub mod error;
pub mod frame;
pub mod scan;
pub mod store;
pub mod tree;
pub mod zlib;

pub use address::Address;
pub use error::ObjectError;
pub use frame::ObjectType;
pub use store::PendingWrite;
pub use tree::TreeEntry;
