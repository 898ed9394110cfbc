//! Bit-level instruction encoding, two-pass address and label resolution,
//! and checksummed hexadecimal record lines.
pub mod bits;
pub mod template;
pub mod assemble;
pub mod hex;
