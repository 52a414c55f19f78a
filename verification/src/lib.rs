//! Parsing and printing of patch files in the unified diff format.
pub mod ast;
pub mod error;
pub mod extra_lines;
pub mod laws;
pub mod literals;
pub mod parsed;
pub mod parser;
pub mod preamble;
pub mod print;
pub mod roundtrip;
pub mod scan;
pub mod text;
pub mod timestamp;

pub use ast::{File, FileMetadata, Hunk, Line, LineKind, Patch, Range, Timestamp};
pub use error::{ErrorKind, ParseError};
pub use print::format_patches;
