//! Why a list of pieces is refused.

use vstd::prelude::*;

verus! {

/// The reasons for which the commitment of a sector is not computed.
#[derive(Clone, Copy, Debug, PartialEq, Eq, Structural, Hash)]
pub enum Error {
    /// The list of pieces is empty.
    MissingPieces,
    /// There are more pieces than the sector has room for pieces of the
    /// smallest size.
    TooManyPieces,
    /// The pieces together take more bytes than the sector has.
    PieceOverflow,
    /// A piece does not hold a power of two times 127 bytes.
    NonPow2Piece,
    /// The padded bytes end before the bytes that were asked for.
    ShortRead,
    /// The source of a piece holds fewer bytes than the piece was said to
    /// have.
    UnderflowSource,
}

} // verus!
