//! Plain values that the rest of the crate exchanges.

use vstd::prelude::*;

verus! {

/// A 256-bit digest, held as two halves.
#[derive(Clone, Copy, Debug, PartialEq, Eq, Structural, Hash)]
pub struct Digest {
    pub hi: u128,
    pub lo: u128,
}

/// The hash by which the data-availability layer names a block.
pub type BlockHash = Digest;

/// The root of the execution state after some block.
pub type StateRoot = Digest;

/// What the data-availability layer attests of a block; opaque to this crate.
#[derive(Clone, Copy, Debug, PartialEq, Eq, Structural, Hash)]
pub struct ValidityCondition {
    pub tag: u64,
}

/// One unit of transaction data inside a block.
#[derive(Clone, Debug, PartialEq, Eq)]
pub struct Blob {
    pub sender: Digest,
    pub sequence: u64,
    pub payload: Vec<u8>,
}

/// A block as the data-availability layer hands it out.
#[derive(Clone, Debug, PartialEq, Eq)]
pub struct Block {
    pub height: u64,
    pub hash: BlockHash,
    pub parent: Option<BlockHash>,
    pub blobs: Vec<Blob>,
    pub validity: ValidityCondition,
}

/// A snapshot's name: the height and hash of the block that produced it.
#[derive(Clone, Copy, Debug, PartialEq, Eq, Structural, Hash)]
pub struct SnapshotKey {
    pub height: u64,
    pub hash: BlockHash,
}

/// Whether a snapshot may still be dropped.
#[derive(Clone, Copy, Debug, PartialEq, Eq, Structural, Hash)]
pub enum SnapshotStatus {
    Pending,
    Finalized,
}

/// The state after one block, linked to the state it was computed from.
#[derive(Clone, Copy, Debug, PartialEq, Eq, Hash)]
pub struct Snapshot {
    pub key: SnapshotKey,
    /// `None` only for the snapshot that a store starts from.
    pub parent: Option<SnapshotKey>,
    pub root: StateRoot,
    pub status: SnapshotStatus,
}

/// The last point that was made final: height, block hash and state root.
#[derive(Clone, Copy, Debug, PartialEq, Eq, Structural, Hash)]
pub struct HeadSlot {
    pub height: u64,
    pub hash: BlockHash,
    pub root: StateRoot,
}

impl Digest {
    /// The digest whose two halves are `hi` and `lo`.
    pub fn new(hi: u128, lo: u128) -> (d: Digest)
        ensures
            d == (Digest { hi, lo }),
    {
        Digest { hi, lo }
    }
}

impl SnapshotKey {
    /// The key of the snapshot made by the block `hash` at `height`.
    pub fn new(height: u64, hash: BlockHash) -> (k: SnapshotKey)
        ensures
            k == (SnapshotKey { height, hash }),
    {
        SnapshotKey { height, hash }
    }
}

impl Block {
    /// The key under which this block's snapshot is stored.
    pub fn key(&self) -> (k: SnapshotKey)
        ensures
            k == (SnapshotKey { height: self.height, hash: self.hash }),
    {
        SnapshotKey { height: self.height, hash: self.hash }
    }
}

} // verus!
