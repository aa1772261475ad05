//! A content-addressable object store in the style of a version-control
//! object database: objects are serialised as `"<kind> <size>\0<payload>"`,
//! identified by the SHA-1 digest of those canonical bytes, and persisted
//! zlib-compressed under a two-level path derived from the hex identifier.

pub mod bounded;
pub mod bytes;
pub mod codec;
pub mod commit;
pub mod compress;
pub mod hashing;
pub mod hex;
pub mod digits;
pub mod error;
pub mod kind;
pub mod store;
pub mod tree;
pub mod treebuild;
