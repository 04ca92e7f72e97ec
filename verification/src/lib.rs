//! Packs a tree of static files into one compressed archive with a sorted
//! index, and resolves request paths against such an archive.
//!
//! An archive is two byte strings. The blob holds the compressed files one
//! after the other. The index maps each file's key, its path relative to
//! the root of the tree, to the packed range of its payload in the blob.
//! `build` makes both from the files of a tree; `Site` opens them again and
//! looks paths up; `serve` turns a lookup into the answer to a request.

pub mod archive;
pub mod compress;
pub mod index;
pub mod key;
pub mod layout;
pub mod order;
pub mod roundtrip;
pub mod server;
pub mod site;
pub mod slice;

pub use archive::{
    assemble, build, compress_all, Archive, BuildError, Compressed, Payload, SourceFile,
};
pub use compress::{compress, CompressError};
pub use index::{IndexBuilder, IndexError};
pub use server::{serve, Response};
pub use site::{OpenError, Site};
pub use slice::{pack_in_u64, unpack_from_u64};
