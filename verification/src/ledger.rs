//! The ledger store: the append-only record of the heights that were made
//! final, with the head slot that a node resumes from.

use vstd::prelude::*;
use crate::types::{BlockHash, HeadSlot, StateRoot};

verus! {

/// Why the ledger refused a write.
#[derive(Clone, Copy, Debug, PartialEq, Eq, Structural)]
pub enum LedgerError {
    /// The height is recorded already, with another root.
    ConflictingRoot,
    /// The height is neither recorded nor the next one after the head.
    OutOfOrder,
}

/// Whether the entry at place `i` stands `i` heights above the first one.
pub open spec fn entry_ok(entries: Seq<HeadSlot>, i: int) -> bool {
    entries[i].height == entries[0].height + i
}

/// Whether the heights of `entries` rise by one from each entry to the next.
pub open spec fn contiguous(entries: Seq<HeadSlot>) -> bool {
    forall|i: int| 0 <= i < entries.len() ==> #[trigger] entry_ok(entries, i)
}

/// Whether `entries` holds a record for `height`.
pub open spec fn records(entries: Seq<HeadSlot>, height: u64) -> bool {
    entries.len() > 0 && entries[0].height <= height <= entries.last().height
}

/// The record of committed heights. The last entry is the head slot.
pub struct LedgerStore {
    entries: Vec<HeadSlot>,
}

impl View for LedgerStore {
    type V = Seq<HeadSlot>;

    closed spec fn view(&self) -> Seq<HeadSlot> {
        self.entries@
    }
}

impl LedgerStore {
    /// The entries rise by one height from each to the next.
    pub open spec fn wf(&self) -> bool {
        contiguous(self@)
    }

    /// A ledger as it is read back at startup: empty, or holding the head
    /// slot that was written last.
    pub fn new(persisted: Option<HeadSlot>) -> (l: LedgerStore)
        ensures
            l.wf(),
            l@ == match persisted {
                Some(h) => seq![h],
                None => Seq::<HeadSlot>::empty(),
            },
    {
        let mut entries: Vec<HeadSlot> = Vec::new();
        match persisted {
            Some(h) => {
                entries.push(h);
                assert(entry_ok(entries@, 0));
            },
            None => {},
        }
        LedgerStore { entries }
    }

    /// The number of entries held.
    pub fn len(&self) -> (n: usize)
        ensures
            n == self@.len(),
    {
        self.entries.len()
    }

    /// The last point that was made final, if any was.
    pub fn get_head_slot(&self) -> (r: Option<HeadSlot>)
        ensures
            r == if self@.len() == 0 {
                None::<HeadSlot>
            } else {
                Some(self@.last())
            },
    {
        let n = self.entries.len();
        if n == 0 {
            None
        } else {
            Some(self.entries[n - 1])
        }
    }

    /// The entry recorded for `height`, if the ledger holds one.
    pub fn get_entry(&self, height: u64) -> (r: Option<HeadSlot>)
        requires
            self.wf(),
        ensures
            r == if records(self@, height) {
                Some(self@[height - self@[0].height])
            } else {
                None::<HeadSlot>
            },
    {
        let n = self.entries.len();
        if n == 0 {
            return None;
        }
        let base = self.entries[0].height;
        proof {
            assert(entry_ok(self@, n - 1));
        }
        if height < base {
            return None;
        }
        let offset: u64 = height - base;
        if offset >= n as u64 {
            return None;
        }
        proof {
            assert(entry_ok(self@, offset as int));
        }
        Some(self.entries[offset as usize])
    }

    /// Records that `height` was made final with the block `hash` and the
    /// state root `root`. Returns whether an entry was written.
    ///
    /// Writing a recorded height again with the same root changes nothing;
    /// with another root it is refused. A new height must follow the head.
    pub fn record_commit(&mut self, height: u64, hash: BlockHash, root: StateRoot) -> (r: Result<
        bool,
        LedgerError,
    >)
        requires
            old(self).wf(),
        ensures
            final(self).wf(),
            r == if records(old(self)@, height) {
                if old(self)@[height - old(self)@[0].height].root == root {
                    Ok::<bool, LedgerError>(false)
                } else {
                    Err::<bool, LedgerError>(LedgerError::ConflictingRoot)
                }
            } else if old(self)@.len() == 0 || height == old(self)@.last().height + 1 {
                Ok::<bool, LedgerError>(true)
            } else {
                Err::<bool, LedgerError>(LedgerError::OutOfOrder)
            },
            final(self)@ == if r == Ok::<bool, LedgerError>(true) {
                old(self)@.push(HeadSlot { height, hash, root })
            } else {
                old(self)@
            },
    {
        match self.get_entry(height) {
            Some(e) => {
                if e.root == root {
                    Ok(false)
                } else {
                    Err(LedgerError::ConflictingRoot)
                }
            },
            None => {
                let n = self.entries.len();
                if n > 0 {
                    let last = self.entries[n - 1].height;
                    proof {
                        assert(entry_ok(self@, n - 1));
                    }
                    if last == u64::MAX || height != last + 1 {
                        return Err(LedgerError::OutOfOrder);
                    }
                }
                let ghost before = self@;
                self.entries.push(HeadSlot { height, hash, root });
                proof {
                    assert forall|i: int| 0 <= i < self@.len() implies #[trigger] entry_ok(
                        self@,
                        i,
                    ) by {
                        if i < before.len() {
                            assert(entry_ok(before, i));
                        } else if before.len() > 0 {
                            assert(entry_ok(before, before.len() - 1));
                        }
                    }
                }
                Ok(true)
            },
        }
    }
}

} // verus!
