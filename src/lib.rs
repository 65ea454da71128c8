//! Regenerates the machine-written regions of otherwise hand-written source
//! files. A region sits between a `<< codegen name >>` line and a
//! `<< /codegen checksum >>` line; a producer writes its code, which is
//! indented like the opening line, and a BLAKE3 checksum stored in the closing
//! line guards it against hand edits.

#![allow(non_camel_case_types)]

pub mod checksum;
pub mod gen;
pub mod idempotence;
pub mod indentation;
pub mod laws;
pub mod loc;
pub mod parse_file;

pub use gen::{generate, Config, Fmt_Result, Gen_Error, Usage};
pub use indentation::Indentation;
