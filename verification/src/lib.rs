//! Decoder for the metadata container of Canon CR2 raw photo files.
//!
//! A CR2 file is a TIFF-derived binary container: a fixed 16-byte header, a
//! byte-order marker, and a chain of Image File Directories (IFDs), each a
//! flat array of typed tag records that may point to out-of-line value blocks
//! elsewhere in the file. This crate takes the file's bytes and produces the
//! fully decoded directory chain, or a descriptive error; reading the bytes
//! from disk is left to the caller.

pub mod bytes;
pub mod error;
pub mod image;
pub mod tag;
