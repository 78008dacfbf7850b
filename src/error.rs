use vstd::prelude::*;

verus! {

/// The ways an operation of the object store can fail.
#[derive(Debug, Clone, Copy, PartialEq, Eq, Structural)]
pub enum ObjectError {
    /// A digest was built from a byte buffer whose length is not 20.
    InvalidLength,
    /// A hexadecimal address was malformed (wrong length or a non-hex digit).
    InvalidHex,
    /// Stored bytes were not a valid compressed stream.
    CorruptData,
    /// No object is stored at the requested address.
    NotFound,
    /// The decompressed bytes did not follow the `"<type> <len>\0"` framing.
    CorruptHeader,
    /// A tree payload was malformed.
    CorruptTree,
    /// A directory entry was neither a regular file nor a directory.
    UnsupportedEntryKind,
}

} // verus!
