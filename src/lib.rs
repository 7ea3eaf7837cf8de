//! CRC-32 checksums of byte streams and the bookkeeping of a batch of
//! files whose checksums are computed concurrently.
pub mod checksum;
pub mod source;
pub mod tasks;
