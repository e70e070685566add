//! A personal note store: plain-text notes carrying inline `#tag` markers,
//! loaded from a directory into an index keyed by identifier, queried by tag
//! set algebra, and edited through an external program whose outcome is
//! merged back. The text encoding, the identifier generation and the index
//! are specified and verified; file handling, rendering and the editor
//! subprocess stay with the caller.

pub mod codec;
pub mod digest;
pub mod err;
pub mod interactive;
pub mod note;
pub mod notebook;
pub mod text;
pub mod tissue;
