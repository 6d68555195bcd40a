//! A textual hex-dump codec: renders binary data as annotated, line-oriented
//! hex text, reads that text back into bytes, and applies sparse patches
//! written in the same format to an in-memory seekable target.

pub mod cli;
pub mod dump;
pub mod errors;
pub mod laws;
pub mod load;
pub mod patch;
pub mod parse;
pub mod text;

pub use errors::HexError;
pub use parse::{for_parsed_data, parse_octets, recognize_line, DumpLine, Offset};
