//! The closed set of failure kinds of the CR2 reader.
//!
//! Every failure carries the detail a caller needs to name what went wrong:
//! the unexpected bytes, the unsupported version, the unknown type code, or
//! the offset of a read that fell outside the file.

use vstd::prelude::*;

verus! {

/// A structural marker of the container that did not match what the format
/// requires.
#[derive(Clone, Copy, Debug, PartialEq, Eq, Structural)]
pub enum FormatMismatch {
    /// The first two bytes were neither the little-endian marker `II` nor the
    /// big-endian marker `MM`; carries the two observed bytes.
    ByteOrderMarker(u8, u8),
    /// The 16-bit field at offset 2 was not the TIFF magic number 0x002A;
    /// carries the observed value.
    TiffMagic(u16),
    /// The two bytes at offset 8 were not the CR2 signature `CR`; carries the
    /// two observed bytes.
    Cr2Magic(u8, u8),
}

/// A condition the format recognizes but this reader does not handle.
#[derive(Clone, Copy, Debug, PartialEq, Eq, Structural)]
pub enum UnsupportedFeature {
    /// The file declares big-endian byte order (`MM` marker): a valid TIFF
    /// variant, distinct from a file that is not TIFF at all.
    BigEndian,
    /// A CR2 version other than 2.0; carries the observed major and minor
    /// version bytes.
    Version(u8, u8),
}

/// Error kinds of the raw file reader.
#[derive(Clone, Copy, Debug, PartialEq, Eq, Structural)]
pub enum RawFileError {
    /// A structural marker did not match: the file is not a CR2 container.
    FileFormat(FormatMismatch),
    /// A recognized but unhandled condition.
    NotImplemented(UnsupportedFeature),
    /// A tag's type code is outside the twelve defined TIFF value types;
    /// carries the unrecognized code.
    TypeError(u16),
    /// A required read began at or ran past the end of the data; carries the
    /// absolute offset at which the read started.
    Seek(u64),
}

} // verus!
