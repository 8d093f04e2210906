//! A verified decoder for the Unix `ar` archive container format.
//!
//! An archive is a flat byte stream: an 8-byte magic, then a sequence of
//! members, each a fixed 60-byte header followed by its payload and an
//! alignment pad byte when the payload length is odd. Two special members
//! carry a symbol table (`/`) and a long-filename table (`//`).

pub mod archive;
pub mod bytes;
pub mod error;
pub mod header;
pub mod nametab;
pub mod reader;
pub mod symtab;
