//! Decoder for the fixed-layout binary header of a tile-set file.
//!
//! A tile-set file opens with a 276-byte header: a two-part format version,
//! a reserved region that must be all zero, and two fields that locate the
//! tile catalog stored elsewhere in the same file. This crate decodes and
//! encodes that header and proves the decoder exact: every byte range is
//! read as a little-endian signed 32-bit integer, the reserved region is
//! checked in full, and each failure is reported with its cause.

pub mod header;
pub mod le32;
