//! A patching engine for Godot PCK archives: parses the fixed container
//! layout (header plus a flat table of file entries), builds an index from
//! logical path to table offset, and relocates an entry's content by
//! appending the new bytes and rewriting only that entry's metadata in place.

pub mod checksum;
pub mod error;
pub mod format;
pub mod index;
pub mod laws;
pub mod pck;
pub mod text;

pub use error::PckError;
