//! The failures that the object store reports.

use vstd::prelude::*;

verus! {

/// Every way in which an operation of this crate can fail.
///
/// All of them are local and recoverable: nothing is retried, nothing is
/// replaced by a default, and nothing ends the process.
#[derive(Clone, Copy, Debug, PartialEq, Eq)]
pub enum ObjectError {
    /// A textual address is not made of exactly 40 hexadecimal digits, or a
    /// binary address is not 20 bytes long.
    MalformedAddress,
    /// The tag of a framed object names no known object type.
    UnknownObjectType,
    /// The header of a framed object lacks its space or its NUL, or its
    /// length field is not an unsigned decimal number. `offset` is where the
    /// header field at fault begins.
    MalformedHeader { offset: usize },
    /// The header declares a payload length other than the actual one.
    LengthMismatch { declared: u64, actual: u64 },
    /// Stored bytes are not a valid zlib stream.
    CorruptStream,
    /// A tree payload ends inside an entry. `offset` is where the field that
    /// is cut short begins.
    TruncatedTree { offset: usize },
    /// Nothing is stored under the address.
    ObjectNotFound,
    /// The object under the address is not of the type asked for.
    TypeMismatch,
    /// The storage, or the compressor writing for it, reported a failure.
    IoError,
}

} // verus!
