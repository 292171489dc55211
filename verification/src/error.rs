//! The failures that reading, sorting and writing an archive can end in.

use vstd::prelude::*;

verus! {

/// Why an operation on an archive failed.
#[derive(Clone, Copy, Debug, PartialEq, Eq, Structural)]
pub enum ArchiveError {
    /// A section named by the headers does not lie inside the data.
    MalformedHeader,
    /// A record points outside the table or region that it refers to, or
    /// the codec failed on its data.
    CorruptArchive,
    /// A record names a string offset at which no string starts.
    StringTableLookupFailure,
    /// The data ended before a fixed-size structure was complete.
    IoFailure,
    /// The directories beneath the root do not form a strict tree.
    InvalidTreeShape,
    /// A count or an offset does not fit the field that the format gives it.
    TooLarge,
    /// A name is empty or holds a zero byte, so that it cannot be found
    /// again in a string table.
    InvalidName,
    /// An encoder was asked for data on which it does not keep to its
    /// buffers.
    EncoderRefused,
}

} // verus!
