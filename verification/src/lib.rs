//! Ring-buffered USB serial log sink.
//!
//! A fixed-capacity byte ring buffer decouples log producers from a
//! possibly absent host: producers enqueue formatted text without ever
//! blocking, and a drain loop moves buffered bytes to the transport in
//! packets, following the bulk-transfer short-packet termination rule.

pub mod drain;
pub mod logger;
pub mod ring;
pub mod session;
