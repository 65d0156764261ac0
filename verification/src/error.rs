//! Why a conversion fails.

use vstd::prelude::*;

verus! {

/// The ways in which a document cannot be converted.
#[derive(Clone, Copy, PartialEq, Eq, Structural, Debug)]
pub enum ConvertError {
    /// The document does not begin with the magic bytes.
    MalformedHeader,
    /// The document ends before its header or its grid is complete.
    TruncatedInput,
    /// A symbol that sounds lies outside the fourteen pitch rows.
    RowOutOfRange,
    /// The document's tempo is zero.
    ZeroTempo,
    /// A track runs past the 32-bit range of ticks or of chunk lengths.
    TrackTooLong,
}

} // verus!
