//! Read-only access to asar archives: a header tree of directories and files,
//! followed by a data region holding the concatenated file bodies.
//!
//! The library holds the decisions: the header model, path resolution, the
//! prologue layout and the byte budget of a file stream. Moving bytes in and
//! out of a reader is left to the caller.

mod archive;
mod header;
mod path;

pub use archive::{header_size, Archive, File, HEADER_SIZE_POSITION, PROLOGUE_LEN};
pub use header::{
    deserialize, serialize, Algorithm, Directory, FileMetadata, HeaderEntry, HeaderError,
    Integrity, MAX_SAFE_INTEGER,
};
pub use path::{join_path, split_path};
