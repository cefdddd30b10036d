//! AXC: a chunked archive container with an LZ77 + rANS codec and CRC-32
//! integrity checks.
//!
//! - `bytes`: little-endian encodings.
//! - `checksum`: CRC-32.
//! - `codec`: LZ77 tokeniser, rANS coder and the LZ-ANS block format.
//! - `format`: the binary records of the container.
//! - `archive`: reading, testing and extracting archives held in memory, and
//!   the writer that lays them out.
//! - `readback`: what reading an archive gives back of what was written.
//! - `error`: the error type.

pub mod bytes;
pub mod checksum;
pub mod codec;
pub mod error;
pub mod format;
pub mod archive;
pub mod readback;
