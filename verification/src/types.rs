//! Byte quantities, commitments and piece descriptions.

use vstd::prelude::*;

verus! {

/// Smallest piece, in bytes as the client sees them.
pub const MINIMUM_PIECE_SIZE: u64 = 127;

/// A node of the piece tree: the root of a piece, or of a whole sector.
pub type Commitment = [u8; 32];

/// A count of bytes as the client sees them, before bit padding.
#[derive(Clone, Copy, Debug, Default, PartialEq, Eq, Structural, PartialOrd, Ord, Hash)]
pub struct UnpaddedBytesAmount(pub u64);

/// A count of bytes as they lie in a sector, after bit padding.
#[derive(Clone, Copy, Debug, Default, PartialEq, Eq, Structural, PartialOrd, Ord, Hash)]
pub struct PaddedBytesAmount(pub u64);

/// An offset into the bytes of a sector as the client sees them.
#[derive(Clone, Copy, Debug, Default, PartialEq, Eq, Structural, PartialOrd, Ord, Hash)]
pub struct UnpaddedByteIndex(pub u64);

/// The capacity of a sector, in padded bytes.
#[derive(Clone, Copy, Debug, Default, PartialEq, Eq, Structural, PartialOrd, Ord, Hash)]
pub struct SectorSize(pub u64);

impl View for UnpaddedBytesAmount {
    type V = nat;

    open spec fn view(&self) -> nat {
        self.0 as nat
    }
}

impl View for PaddedBytesAmount {
    type V = nat;

    open spec fn view(&self) -> nat {
        self.0 as nat
    }
}

impl View for UnpaddedByteIndex {
    type V = nat;

    open spec fn view(&self) -> nat {
        self.0 as nat
    }
}

impl View for SectorSize {
    type V = nat;

    open spec fn view(&self) -> nat {
        self.0 as nat
    }
}

/// Padded bytes that `unpadded` client bytes take: one more byte for every
/// 127 bytes begun.
pub open spec fn padded_bytes(unpadded: nat) -> nat {
    unpadded + (unpadded + 126) / 127
}

/// Client bytes that fit into `padded` sector bytes.
pub open spec fn unpadded_bytes(padded: nat) -> nat {
    (padded - (padded + 127) / 128) as nat
}

/// Padding and taking the padding out again gives the same number of bytes,
/// and no more bytes fit into the padded form than were padded.
pub proof fn lemma_unpadded_of_padded(unpadded: nat)
    ensures
        unpadded_bytes(padded_bytes(unpadded)) == unpadded,
        forall|padded: nat| padded < padded_bytes(unpadded) ==> unpadded_bytes(padded) < unpadded,
{
}

/// 127 client bytes take 128 sector bytes.
pub proof fn lemma_padded_multiple(count: nat)
    ensures
        padded_bytes(127 * count) == 128 * count,
        unpadded_bytes(128 * count) == 127 * count,
{
}

impl UnpaddedBytesAmount {
    /// The sector bytes that this many client bytes take.
    pub fn padded(self) -> (amount: PaddedBytesAmount)
        requires
            padded_bytes(self@) <= u64::MAX,
        ensures
            amount@ == padded_bytes(self@),
    {
        let chunks = self.0 / 127 + if self.0 % 127 != 0 {
            1
        } else {
            0
        };
        PaddedBytesAmount(self.0 + chunks)
    }
}

impl PaddedBytesAmount {
    /// The client bytes that fit into this many sector bytes.
    pub fn unpadded(self) -> (amount: UnpaddedBytesAmount)
        ensures
            amount@ == unpadded_bytes(self@),
    {
        let words = self.0 / 128 + if self.0 % 128 != 0 {
            1
        } else {
            0
        };
        UnpaddedBytesAmount(self.0 - words)
    }
}

impl SectorSize {
    /// The client bytes that fit into the sector.
    pub fn unpadded(self) -> (amount: UnpaddedBytesAmount)
        ensures
            amount@ == unpadded_bytes(self@),
    {
        PaddedBytesAmount(self.0).unpadded()
    }
}

impl std::convert::From<SectorSize> for PaddedBytesAmount {
    fn from(size: SectorSize) -> (amount: Self) {
        PaddedBytesAmount(size.0)
    }
}

impl vstd::std_specs::convert::FromSpecImpl<SectorSize> for PaddedBytesAmount {
    open spec fn obeys_from_spec() -> bool {
        true
    }

    open spec fn from_spec(size: SectorSize) -> Self {
        PaddedBytesAmount(size.0)
    }
}

impl std::convert::From<SectorSize> for UnpaddedBytesAmount {
    fn from(size: SectorSize) -> (amount: Self) {
        size.unpadded()
    }
}

impl vstd::std_specs::convert::FromSpecImpl<SectorSize> for UnpaddedBytesAmount {
    open spec fn obeys_from_spec() -> bool {
        true
    }

    open spec fn from_spec(size: SectorSize) -> Self {
        UnpaddedBytesAmount(unpadded_bytes(size@) as u64)
    }
}

impl std::convert::From<PaddedBytesAmount> for UnpaddedBytesAmount {
    fn from(padded: PaddedBytesAmount) -> (amount: Self) {
        padded.unpadded()
    }
}

impl vstd::std_specs::convert::FromSpecImpl<PaddedBytesAmount> for UnpaddedBytesAmount {
    open spec fn obeys_from_spec() -> bool {
        true
    }

    open spec fn from_spec(padded: PaddedBytesAmount) -> Self {
        UnpaddedBytesAmount(unpadded_bytes(padded@) as u64)
    }
}

impl std::convert::From<UnpaddedBytesAmount> for u64 {
    fn from(amount: UnpaddedBytesAmount) -> (bytes: Self) {
        amount.0
    }
}

impl vstd::std_specs::convert::FromSpecImpl<UnpaddedBytesAmount> for u64 {
    open spec fn obeys_from_spec() -> bool {
        true
    }

    open spec fn from_spec(amount: UnpaddedBytesAmount) -> Self {
        amount.0
    }
}

impl std::convert::From<PaddedBytesAmount> for u64 {
    fn from(amount: PaddedBytesAmount) -> (bytes: Self) {
        amount.0
    }
}

impl vstd::std_specs::convert::FromSpecImpl<PaddedBytesAmount> for u64 {
    open spec fn obeys_from_spec() -> bool {
        true
    }

    open spec fn from_spec(amount: PaddedBytesAmount) -> Self {
        amount.0
    }
}

impl std::convert::From<SectorSize> for u64 {
    fn from(size: SectorSize) -> (bytes: Self) {
        size.0
    }
}

impl vstd::std_specs::convert::FromSpecImpl<SectorSize> for u64 {
    open spec fn obeys_from_spec() -> bool {
        true
    }

    open spec fn from_spec(size: SectorSize) -> Self {
        size.0
    }
}

impl std::convert::From<UnpaddedBytesAmount> for UnpaddedByteIndex {
    fn from(amount: UnpaddedBytesAmount) -> (index: Self) {
        UnpaddedByteIndex(amount.0)
    }
}

impl vstd::std_specs::convert::FromSpecImpl<UnpaddedBytesAmount> for UnpaddedByteIndex {
    open spec fn obeys_from_spec() -> bool {
        true
    }

    open spec fn from_spec(amount: UnpaddedBytesAmount) -> Self {
        UnpaddedByteIndex(amount.0)
    }
}

impl std::ops::Add for UnpaddedBytesAmount {
    type Output = UnpaddedBytesAmount;

    fn add(self, other: UnpaddedBytesAmount) -> (sum: UnpaddedBytesAmount) {
        UnpaddedBytesAmount(self.0 + other.0)
    }
}

impl vstd::std_specs::ops::AddSpecImpl for UnpaddedBytesAmount {
    open spec fn obeys_add_spec() -> bool {
        true
    }

    open spec fn add_req(self, other: UnpaddedBytesAmount) -> bool {
        self.0 + other.0 <= u64::MAX
    }

    open spec fn add_spec(self, other: UnpaddedBytesAmount) -> UnpaddedBytesAmount {
        UnpaddedBytesAmount((self.0 + other.0) as u64)
    }
}

/// What the commitment of a sector needs to know of a piece: the root of its
/// tree and the bytes it holds.
#[derive(Clone, Copy, Debug, Default, PartialEq, Eq, Hash)]
pub struct PieceInfo {
    pub commitment: Commitment,
    pub size: UnpaddedBytesAmount,
}

/// A piece as the contracts speak of it.
pub struct PieceModel {
    pub commitment: Seq<u8>,
    pub size: nat,
}

impl View for PieceInfo {
    type V = PieceModel;

    open spec fn view(&self) -> PieceModel {
        PieceModel { commitment: self.commitment@, size: self.size@ }
    }
}

impl PieceInfo {
    /// A piece of `size` bytes whose tree has the root `commitment`.
    pub fn new(commitment: Commitment, size: UnpaddedBytesAmount) -> (piece: Self)
        ensures
            piece.commitment == commitment,
            piece.size == size,
    {
        PieceInfo { commitment, size }
    }
}

/// The sizes of `pieces`, in order.
pub open spec fn sizes_of(pieces: Seq<PieceModel>) -> Seq<nat> {
    Seq::new(pieces.len(), |i: int| pieces[i].size)
}

/// The models of `pieces`, in order.
pub open spec fn models_of(pieces: Seq<PieceInfo>) -> Seq<PieceModel> {
    Seq::new(pieces.len(), |i: int| pieces[i]@)
}

} // verus!
