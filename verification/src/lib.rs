//! A minimal content-addressable object store in the style of a version
//! control system's object database. Typed objects — blobs, trees, commits
//! and tags — are framed under a `kind SP length NUL` header, addressed by
//! the SHA-1 digest of the framed bytes, compressed, and stored; commit and
//! tag bodies use the key-value-list-with-message format, tree bodies the
//! binary directory-entry format. On top of the store sit the two graph
//! walks: the parent-graph log with its cycle guard, and checkout, which
//! lays out the steps that materialize a tree.
pub mod bytes_util;
pub mod dec;
pub mod digest;
pub mod error;
pub mod frame;
pub mod hex;
pub mod kvlm;
pub mod object;
pub mod store;
pub mod tree;
pub mod walk;
pub mod zlib;

pub use digest::Digest;
pub use error::WyagError;
pub use error::WyagErrorKind;
pub use object::GitKind;
pub use object::GitObject;
pub use store::ObjectStore;
pub use tree::GitTreeLeaf;
pub use walk::CheckoutAction;
