//! Zero-copy text buffering and streaming decoding for an XML pull parser.

pub mod buffer;
pub mod encodings;
pub mod event;
pub mod util;
