//! Delimiter-based framing of a byte stream, and the per-connection
//! bookkeeping of an echo server built on it.
//!
//! A frame is a run of bytes terminated by the two-byte delimiter
//! carriage-return line-feed. The [`framer`] module finds frame boundaries in
//! a buffer and splits one complete frame off its front; the [`handler`]
//! module keeps the buffer of one connection across partial reads and decides
//! when the connection can no longer make progress. All socket work is left
//! to the surrounding program.

pub mod framer;
pub mod handler;
