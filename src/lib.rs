//! A minimal HTTP/1.1 server library: an incremental request framer, a flat
//! router, per-route response builders and a response assembler that
//! negotiates content encoding. Socket and file I/O stay with the caller.

pub mod config;
pub mod error;
pub mod utils;
pub mod header;
pub mod request;
pub mod encoding;
pub mod response;
pub mod router;
