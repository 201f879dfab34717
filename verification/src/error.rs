//! The failures the decoders and the lookup routine report. A checksum
//! mismatch, malformed sizing or a truncated stream during a build is a
//! format error and fails the whole build; an unhandled block type tag
//! and a checksum mismatch met while extracting one definition fail
//! only that lookup.

use vstd::prelude::*;

verus! {

#[derive(PartialEq, Eq, Structural, Clone, Copy, Debug)]
pub enum MdxError {
    /// A checksum mismatch, malformed sizing, or truncated stream.
    FormatError,
    /// A declared but unhandled block type tag.
    UnsupportedBlockType,
    /// A checksum mismatch on the one block a lookup touched.
    ChecksumMismatch,
}

} // verus!
