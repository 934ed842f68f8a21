//! The chain index: which block hash is accepted at each height.

use vstd::prelude::*;
use crate::types::BlockHash;

verus! {

/// The accepted block hash at each height from a base height upward,
/// without gaps.
pub struct ChainIndex {
    base: u64,
    hashes: Vec<BlockHash>,
}

/// The mathematical content of a chain index.
pub struct IndexView {
    /// The lowest height held.
    pub base: u64,
    /// The hashes at `base`, `base + 1`, and so on.
    pub hashes: Seq<BlockHash>,
}

impl IndexView {
    /// The index holds at least one height and its tip fits a height.
    pub open spec fn wf(self) -> bool {
        self.hashes.len() >= 1 && self.base + self.hashes.len() - 1 <= u64::MAX
    }

    /// The highest height held.
    pub open spec fn tip(self) -> int {
        self.base + self.hashes.len() - 1
    }

    /// Whether the index holds `height`.
    pub open spec fn holds(self, height: u64) -> bool {
        self.base <= height <= self.tip()
    }

    /// The hash accepted at `height`.
    pub open spec fn at(self, height: u64) -> BlockHash {
        self.hashes[height - self.base]
    }
}

impl View for ChainIndex {
    type V = IndexView;

    closed spec fn view(&self) -> IndexView {
        IndexView { base: self.base, hashes: self.hashes@ }
    }
}

impl ChainIndex {
    /// An index that holds the one height `base` with the hash `hash`.
    pub fn new(base: u64, hash: BlockHash) -> (ix: ChainIndex)
        ensures
            ix@.wf(),
            ix@ == (IndexView { base, hashes: seq![hash] }),
    {
        let mut hashes: Vec<BlockHash> = Vec::new();
        hashes.push(hash);
        ChainIndex { base, hashes }
    }

    /// The highest height held.
    pub fn tip_height(&self) -> (h: u64)
        requires
            self@.wf(),
        ensures
            h == self@.tip(),
    {
        self.base + (self.hashes.len() - 1) as u64
    }

    /// The hash accepted at `height`, if the index holds that height.
    pub fn get(&self, height: u64) -> (r: Option<BlockHash>)
        requires
            self@.wf(),
        ensures
            r == if self@.holds(height) {
                Some(self@.at(height))
            } else {
                None::<BlockHash>
            },
    {
        if height < self.base {
            return None;
        }
        let offset: u64 = height - self.base;
        if offset >= self.hashes.len() as u64 {
            return None;
        }
        Some(self.hashes[offset as usize])
    }

    /// Accepts `hash` at the height above the tip. Returns whether it did:
    /// it does not where the tip is the greatest height there is.
    pub fn push(&mut self, hash: BlockHash) -> (done: bool)
        requires
            old(self)@.wf(),
        ensures
            final(self)@.wf(),
            done == (old(self)@.tip() < u64::MAX),
            final(self)@ == if done {
                IndexView { base: old(self)@.base, hashes: old(self)@.hashes.push(hash) }
            } else {
                old(self)@
            },
    {
        if self.tip_height() == u64::MAX {
            return false;
        }
        self.hashes.push(hash);
        true
    }

    /// Forgets every height above `height`. An index that does not hold
    /// `height` stays as it is.
    pub fn truncate_above(&mut self, height: u64)
        requires
            old(self)@.wf(),
        ensures
            final(self)@.wf(),
            final(self)@ == if old(self)@.holds(height) {
                IndexView {
                    base: old(self)@.base,
                    hashes: old(self)@.hashes.take(height - old(self)@.base + 1),
                }
            } else {
                old(self)@
            },
    {
        if height < self.base {
            return ;
        }
        let offset: u64 = height - self.base;
        if offset >= self.hashes.len() as u64 {
            return ;
        }
        let keep: usize = offset as usize + 1;
        self.hashes.truncate(keep);
        proof {
            assert(self.hashes@ =~= old(self).hashes@.take(keep as int));
        }
    }
}

} // verus!
