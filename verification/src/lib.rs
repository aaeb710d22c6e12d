//! A minimal remote file-access protocol: requests select an existence
//! check, a whole-file read, or a recursive listing against a fixed root
//! directory, and responses are length-prefixed binary frames.
//!
//! This crate holds the protocol core: framing, request decoding, path
//! resolution, listing paths, and the dispatcher's decisions. The I/O that
//! surrounds it (sockets, the filesystem, the log) lives outside.

pub mod wire;
pub mod paths;
pub mod request;
pub mod listing;
pub mod dispatch;
