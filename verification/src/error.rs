use vstd::prelude::*;

verus! {

/// Why a well-sized input was rejected.
#[derive(Debug, Clone, Copy, PartialEq, Eq)]
pub enum ParseError {
    /// The first byte of a B-tree page header is none of the four page types.
    InvalidPageType,
    /// Cells of this kind of B-tree page are not parsed.
    UnsupportedPageType,
    /// Values of this serial type (NULL, 24-bit integers, floats and the
    /// constants 0 and 1) are not parsed.
    UnsupportedSerialType,
    /// A text value, or the header's magic string, is not valid UTF-8.
    InvalidUtf8,
}

} // verus!
