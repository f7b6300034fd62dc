//! Core logic of a minimal TCP benchmarking server: a growing per-connection
//! byte buffer is scanned for the request delimiter `\r\n\r\n`, and one fixed
//! response is owed for each delimiter found. The asynchronous socket loop
//! lives outside this crate; everything here is plain, verified computation.

pub mod args;
pub mod buffer;
pub mod response;
pub mod scan;
