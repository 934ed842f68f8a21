//! The storage manager: a forest of state snapshots above a chain of final ones.
//!
//! Snapshots are kept in an arena and refer to their parents by key. The
//! pending ones stand in the order in which they were made, so a parent
//! always comes before its children.

use vstd::prelude::*;
use crate::types::{BlockHash, Snapshot, SnapshotKey, SnapshotStatus, StateRoot};

verus! {

/// Why the storage manager refused an operation.
#[derive(Clone, Copy, Debug, PartialEq, Eq, Structural)]
pub enum StorageError {
    /// The parent named is neither the final head nor a pending snapshot.
    MissingParent,
    /// The height given is not the parent's height plus one.
    HeightMismatch,
    /// A pending snapshot with this key exists already.
    DuplicateSnapshot,
    /// The snapshot to discard is final.
    CannotDiscardFinalized,
    /// No snapshot has this key.
    UnknownSnapshot,
    /// The snapshot to commit is not a pending child of the final head.
    OutOfOrderCommit,
    /// The root given at commit differs from the root stored.
    RootMismatch,
}

/// Whether some snapshot in `nodes` has the key `key`.
pub open spec fn has_key(nodes: Seq<Snapshot>, key: SnapshotKey) -> bool {
    exists|i: int| 0 <= i < nodes.len() && (#[trigger] nodes[i]).key == key
}

/// The place of a snapshot with the key `key` in `nodes`, where there is one.
pub open spec fn slot_of(nodes: Seq<Snapshot>, key: SnapshotKey) -> int {
    choose|i: int| 0 <= i < nodes.len() && (#[trigger] nodes[i]).key == key
}

/// Whether `key` is `target` or is reached from `target` by parent links
/// that run through `nodes`.
pub open spec fn descends(nodes: Seq<Snapshot>, target: SnapshotKey, key: SnapshotKey) -> bool
    decreases key.height,
{
    key == target || (has_key(nodes, key) && match nodes[slot_of(nodes, key)].parent {
        Some(p) => p.height < key.height && descends(nodes, target, p),
        None => false,
    })
}

/// The pending snapshots that a discard of `target` leaves.
pub open spec fn outside_of(nodes: Seq<Snapshot>, target: SnapshotKey) -> spec_fn(Snapshot) -> bool {
    |s: Snapshot| !descends(nodes, target, s.key)
}

/// The pending snapshots that a commit of `target` leaves.
pub open spec fn strictly_below(nodes: Seq<Snapshot>, target: SnapshotKey) -> spec_fn(Snapshot) -> bool {
    |s: Snapshot| s.key != target && descends(nodes, target, s.key)
}

/// The head above which the pending snapshots stand once `target` was
/// committed (`below`) or discarded.
pub open spec fn head_after(head: SnapshotKey, target: SnapshotKey, below: bool) -> SnapshotKey {
    if below {
        target
    } else {
        head
    }
}

/// What a final snapshot must satisfy at place `i` of the final chain.
pub open spec fn final_ok(chain: Seq<Snapshot>, i: int) -> bool {
    &&& chain[i].status == SnapshotStatus::Finalized
    &&& chain[i].key.height == chain[0].key.height + i
    &&& (i > 0 ==> chain[i].parent == Some(chain[i - 1].key))
}

/// What a pending snapshot must satisfy at place `i` above the head `head`.
pub open spec fn pending_ok(head: SnapshotKey, nodes: Seq<Snapshot>, i: int) -> bool {
    let s = nodes[i];
    &&& s.status == SnapshotStatus::Pending
    &&& s.key.height > head.height
    &&& s.parent is Some
    &&& s.parent.unwrap().height + 1 == s.key.height
    &&& (s.parent.unwrap() == head || exists|j: int|
        0 <= j < i && (#[trigger] nodes[j]).key == s.parent.unwrap())
}

/// The mathematical content of a storage manager.
pub struct StorageView {
    /// The final snapshots, lowest height first; the last one is the head.
    pub finalized: Seq<Snapshot>,
    /// The pending snapshots in the order of their creation.
    pub pending: Seq<Snapshot>,
}

impl StorageView {
    /// The snapshot that was made final last.
    pub open spec fn head(self) -> Snapshot {
        self.finalized.last()
    }

    /// Whether `key` names the final head or a pending snapshot.
    pub open spec fn is_live(self, key: SnapshotKey) -> bool {
        key == self.head().key || has_key(self.pending, key)
    }

    /// Whether `key` names a final snapshot.
    pub open spec fn is_final(self, key: SnapshotKey) -> bool {
        has_key(self.finalized, key)
    }

    /// The invariant of the forest: the final snapshots form a chain without
    /// gaps, every pending snapshot hangs one height above its parent, which
    /// is the head or an earlier pending snapshot, and no key occurs twice.
    pub open spec fn wf(self) -> bool {
        &&& self.finalized.len() >= 1
        &&& forall|i: int| 0 <= i < self.finalized.len() ==> #[trigger] final_ok(self.finalized, i)
        &&& forall|i: int|
            0 <= i < self.pending.len() ==> #[trigger] pending_ok(self.head().key, self.pending, i)
        &&& forall|i: int, j: int|
            0 <= i < j < self.pending.len() ==> (#[trigger] self.pending[i]).key != (
            #[trigger] self.pending[j]).key
    }
}

impl StorageView {
    /// The place of a pending snapshot is the place of its key.
    pub proof fn lemma_slot(self, i: int)
        requires
            self.wf(),
            0 <= i < self.pending.len(),
        ensures
            has_key(self.pending, self.pending[i].key),
            slot_of(self.pending, self.pending[i].key) == i,
    {
        let key = self.pending[i].key;
        let k = slot_of(self.pending, key);
        assert(self.pending[k].key == key);
        if k < i {
            assert(self.pending[k].key != self.pending[i].key);
        } else if i < k {
            assert(self.pending[i].key != self.pending[k].key);
        }
    }

    /// A pending snapshot descends from `target` when it is `target` or its
    /// parent descends from `target`.
    pub proof fn lemma_descends_unfold(self, target: SnapshotKey, i: int)
        requires
            self.wf(),
            0 <= i < self.pending.len(),
        ensures
            descends(self.pending, target, self.pending[i].key) == (self.pending[i].key == target
                || descends(self.pending, target, self.pending[i].parent.unwrap())),
    {
        self.lemma_slot(i);
        assert(pending_ok(self.head().key, self.pending, i));
    }

    /// No pending snapshot has the head's key, so the head descends from
    /// nothing but itself.
    pub proof fn lemma_head_descends(self, target: SnapshotKey)
        requires
            self.wf(),
        ensures
            !has_key(self.pending, self.head().key),
            descends(self.pending, target, self.head().key) == (self.head().key == target),
    {
        assert forall|i: int| 0 <= i < self.pending.len() implies (#[trigger] self.pending[i]).key
            != self.head().key by {
            assert(pending_ok(self.head().key, self.pending, i));
        }
    }

    /// A final snapshot is not pending.
    pub proof fn lemma_final_not_pending(self, key: SnapshotKey)
        requires
            self.wf(),
            self.is_final(key),
        ensures
            !has_key(self.pending, key),
            key.height <= self.head().key.height,
    {
        let k = choose|k: int| 0 <= k < self.finalized.len() && (#[trigger] self.finalized[k]).key == key;
        assert(final_ok(self.finalized, k));
        assert(final_ok(self.finalized, self.finalized.len() - 1));
        assert forall|i: int| 0 <= i < self.pending.len() implies (#[trigger] self.pending[i]).key
            != key by {
            assert(pending_ok(self.head().key, self.pending, i));
        }
    }
}

/// Whether the pending snapshot at place `i` stands directly above the one
/// before it, or above the head where it is the first.
pub open spec fn link_ok(head: SnapshotKey, nodes: Seq<Snapshot>, i: int) -> bool {
    &&& nodes[i].key.height == head.height + 1 + i
    &&& nodes[i].parent == Some(
        if i == 0 {
            head
        } else {
            nodes[i - 1].key
        },
    )
}

/// Filtering by a predicate that holds exactly of the first `k` items
/// keeps those.
pub proof fn lemma_filter_prefix<A>(s: Seq<A>, pred: spec_fn(A) -> bool, k: int)
    requires
        0 <= k <= s.len(),
        forall|i: int| 0 <= i < s.len() ==> pred(#[trigger] s[i]) == (i < k),
    ensures
        s.filter(pred) == s.take(k),
    decreases s.len(),
{
    reveal(Seq::filter);
    if s.len() == 0 {
        assert(s.take(k) =~= s);
    } else {
        let rest = s.drop_last();
        assert forall|i: int| 0 <= i < rest.len() implies pred(#[trigger] rest[i]) == (i < k) by {
            assert(rest[i] == s[i]);
        }
        assert(pred(s[s.len() - 1]) == (s.len() - 1 < k));
        if k == s.len() {
            lemma_filter_prefix(rest, pred, k - 1);
            assert(rest.take(k - 1) =~= rest);
            assert(rest.push(s.last()) =~= s);
            assert(s.take(k) =~= s);
        } else {
            lemma_filter_prefix(rest, pred, k);
            assert(rest.take(k) =~= s.take(k));
        }
    }
}

/// Filtering by a predicate that holds exactly of the items from place `k`
/// on keeps those.
pub proof fn lemma_filter_suffix<A>(s: Seq<A>, pred: spec_fn(A) -> bool, k: int)
    requires
        0 <= k <= s.len(),
        forall|i: int| 0 <= i < s.len() ==> pred(#[trigger] s[i]) == (i >= k),
    ensures
        s.filter(pred) == s.skip(k),
    decreases s.len(),
{
    reveal(Seq::filter);
    if s.len() == 0 {
        assert(s.skip(k) =~= s);
    } else {
        let rest = s.drop_last();
        assert forall|i: int| 0 <= i < rest.len() implies pred(#[trigger] rest[i]) == (i >= k) by {
            assert(rest[i] == s[i]);
        }
        assert(pred(s[s.len() - 1]) == (s.len() - 1 >= k));
        if k == s.len() {
            lemma_filter_suffix(rest, pred, k - 1);
            assert(rest.skip(k - 1) =~= Seq::<A>::empty());
            assert(s.skip(k) =~= Seq::<A>::empty());
        } else {
            lemma_filter_suffix(rest, pred, k);
            assert(rest.skip(k).push(s.last()) =~= s.skip(k));
        }
    }
}

impl StorageView {
    /// Whether the pending snapshots form one chain above the head, in
    /// order of height.
    pub open spec fn is_chain(self) -> bool {
        forall|i: int|
            0 <= i < self.pending.len() ==> #[trigger] link_ok(self.head().key, self.pending, i)
    }

    /// In a chain, a pending snapshot descends from exactly those that stand
    /// at or before its place.
    pub proof fn lemma_chain_descends(self, k: int, i: int)
        requires
            self.wf(),
            self.is_chain(),
            0 <= k < self.pending.len(),
            0 <= i < self.pending.len(),
        ensures
            descends(self.pending, self.pending[k].key, self.pending[i].key) == (i >= k),
        decreases i,
    {
        let target = self.pending[k].key;
        self.lemma_descends_unfold(target, i);
        self.lemma_head_descends(target);
        assert(link_ok(self.head().key, self.pending, i));
        assert(link_ok(self.head().key, self.pending, k));
        if i > 0 {
            self.lemma_chain_descends(k, i - 1);
        }
    }

    /// In a chain, discarding the snapshot at place `k` leaves the first `k`.
    pub proof fn lemma_discard_chain(self, k: int)
        requires
            self.wf(),
            self.is_chain(),
            0 <= k < self.pending.len(),
        ensures
            self.pending.filter(outside_of(self.pending, self.pending[k].key))
                == self.pending.take(k),
    {
        let pred = outside_of(self.pending, self.pending[k].key);
        assert forall|i: int| 0 <= i < self.pending.len() implies pred(#[trigger] self.pending[i])
            == (i < k) by {
            self.lemma_chain_descends(k, i);
        }
        lemma_filter_prefix(self.pending, pred, k);
    }

    /// In a chain, committing the first pending snapshot leaves all others.
    pub proof fn lemma_commit_chain(self)
        requires
            self.wf(),
            self.is_chain(),
            self.pending.len() > 0,
        ensures
            self.pending.filter(strictly_below(self.pending, self.pending[0].key))
                == self.pending.skip(1),
    {
        let pred = strictly_below(self.pending, self.pending[0].key);
        assert forall|i: int| 0 <= i < self.pending.len() implies pred(#[trigger] self.pending[i])
            == (i >= 1) by {
            self.lemma_chain_descends(0, i);
            if i > 0 {
                assert(self.pending[0].key != self.pending[i].key);
            }
        }
        lemma_filter_suffix(self.pending, pred, 1);
    }
}

/// The snapshot forest.
pub struct StorageManager {
    finalized: Vec<Snapshot>,
    pending: Vec<Snapshot>,
}

impl View for StorageManager {
    type V = StorageView;

    closed spec fn view(&self) -> StorageView {
        StorageView { finalized: self.finalized@, pending: self.pending@ }
    }
}

impl StorageManager {
    /// A store that starts from one final snapshot and has nothing pending.
    pub fn new(start: SnapshotKey, root: StateRoot) -> (m: StorageManager)
        ensures
            m@.wf(),
            m@.finalized == seq![
                Snapshot { key: start, parent: None, root, status: SnapshotStatus::Finalized },
            ],
            m@.pending == Seq::<Snapshot>::empty(),
    {
        let first = Snapshot { key: start, parent: None, root, status: SnapshotStatus::Finalized };
        let mut finalized: Vec<Snapshot> = Vec::new();
        finalized.push(first);
        assert(final_ok(finalized@, 0));
        StorageManager { finalized, pending: Vec::new() }
    }

    /// The snapshot that was made final last.
    pub fn head(&self) -> (s: Snapshot)
        requires
            self@.wf(),
        ensures
            s == self@.head(),
    {
        self.finalized[self.finalized.len() - 1]
    }

    /// The number of pending snapshots.
    pub fn pending_len(&self) -> (n: usize)
        ensures
            n == self@.pending.len(),
    {
        self.pending.len()
    }

    /// The pending snapshot at place `i` in the order of creation.
    pub fn pending_at(&self, i: usize) -> (s: Snapshot)
        requires
            i < self@.pending.len(),
        ensures
            s == self@.pending[i as int],
    {
        self.pending[i]
    }

    /// The place of the pending snapshot named `key`, if there is one.
    fn find_pending(&self, key: SnapshotKey, limit: usize) -> (r: Option<usize>)
        requires
            limit <= self@.pending.len(),
        ensures
            match r {
                Some(i) => i < limit && self@.pending[i as int].key == key,
                None => forall|j: int| 0 <= j < limit ==> (#[trigger] self@.pending[j]).key != key,
            },
    {
        let mut i: usize = 0;
        while i < limit
            invariant
                i <= limit <= self.pending.len(),
                forall|j: int| 0 <= j < i ==> (#[trigger] self.pending@[j]).key != key,
            decreases limit - i,
        {
            if self.pending[i].key == key {
                return Some(i);
            }
            i += 1;
        }
        None
    }

    /// The pending snapshot named `key`, if there is one.
    pub fn pending_snapshot(&self, key: SnapshotKey) -> (r: Option<Snapshot>)
        requires
            self@.wf(),
        ensures
            r is Some <==> has_key(self@.pending, key),
            r is Some ==> r.unwrap() == self@.pending[slot_of(self@.pending, key)],
    {
        match self.find_pending(key, self.pending.len()) {
            Some(i) => {
                assert(self@.pending[i as int].key == key);
                assert(self@.pending[slot_of(self@.pending, key)].key == key);
                Some(self.pending[i])
            },
            None => None,
        }
    }

    /// Adds a pending snapshot for the block `hash` at `height`, computed from
    /// the snapshot `parent`, with the state root `root`.
    ///
    /// The parent must be the final head or a pending snapshot, the height
    /// must be the parent's plus one, and the key must be new.
    pub fn new_snapshot(
        &mut self,
        parent: SnapshotKey,
        height: u64,
        hash: BlockHash,
        root: StateRoot,
    ) -> (r: Result<Snapshot, StorageError>)
        requires
            old(self)@.wf(),
        ensures
            final(self)@.wf(),
            final(self)@.finalized == old(self)@.finalized,
            !old(self)@.is_live(parent) ==> r == Err::<Snapshot, StorageError>(
                StorageError::MissingParent,
            ),
            old(self)@.is_live(parent) && height != parent.height + 1 ==> r == Err::<
                Snapshot,
                StorageError,
            >(StorageError::HeightMismatch),
            old(self)@.is_live(parent) && height == parent.height + 1 && has_key(
                old(self)@.pending,
                SnapshotKey { height, hash },
            ) ==> r == Err::<Snapshot, StorageError>(StorageError::DuplicateSnapshot),
            r is Ok <==> old(self)@.is_live(parent) && height == parent.height + 1 && !has_key(
                old(self)@.pending,
                SnapshotKey { height, hash },
            ),
            r is Ok ==> r.unwrap() == (Snapshot {
                key: SnapshotKey { height, hash },
                parent: Some(parent),
                root,
                status: SnapshotStatus::Pending,
            }) && final(self)@.pending == old(self)@.pending.push(r.unwrap()),
            r is Err ==> final(self)@.pending == old(self)@.pending,
    {
        let head = self.head();
        let key = SnapshotKey { height, hash };
        if parent != head.key {
            if self.find_pending(parent, self.pending.len()).is_none() {
                return Err(StorageError::MissingParent);
            }
        }
        if parent.height == u64::MAX || height != parent.height + 1 {
            return Err(StorageError::HeightMismatch);
        }
        if self.find_pending(key, self.pending.len()).is_some() {
            return Err(StorageError::DuplicateSnapshot);
        }
        let snap = Snapshot { key, parent: Some(parent), root, status: SnapshotStatus::Pending };
        proof {
            if parent != head.key {
                let j = slot_of(self@.pending, parent);
                assert(pending_ok(head.key, self@.pending, j));
            }
        }
        self.pending.push(snap);
        proof {
            let before = old(self)@.pending;
            let after = self@.pending;
            assert forall|i: int| 0 <= i < after.len() implies pending_ok(
                head.key,
                after,
                i,
            ) by {
                if i < before.len() {
                    assert(pending_ok(head.key, before, i));
                    assert(after[i] == before[i]);
                    if before[i].parent.unwrap() != head.key {
                        let j = choose|j: int|
                            0 <= j < i && (#[trigger] before[j]).key == before[i].parent.unwrap();
                        assert(after[j].key == after[i].parent.unwrap());
                    }
                } else {
                    if parent != head.key {
                        let j = slot_of(before, parent);
                        assert(after[j].key == parent);
                    }
                }
            }
        }
        Ok(snap)
    }

    /// The place of the final snapshot named `key`, if there is one.
    fn find_finalized(&self, key: SnapshotKey) -> (r: Option<usize>)
        requires
            self@.wf(),
        ensures
            r is Some <==> self@.is_final(key),
            r is Some ==> r.unwrap() < self@.finalized.len() && self@.finalized[r.unwrap() as int].key
                == key,
    {
        let base = self.finalized[0].key.height;
        proof {
            assert forall|k: int| 0 <= k < self@.finalized.len() implies (
            #[trigger] self@.finalized[k]).key.height == base + k by {
                assert(final_ok(self@.finalized, k));
            }
        }
        if key.height < base {
            return None;
        }
        let offset: u64 = key.height - base;
        if offset >= self.finalized.len() as u64 {
            return None;
        }
        let i: usize = offset as usize;
        if self.finalized[i].key == key {
            Some(i)
        } else {
            None
        }
    }

    /// For each pending snapshot, whether it descends from `target`.
    fn descent_flags(&self, target: SnapshotKey) -> (flags: Vec<bool>)
        requires
            self@.wf(),
        ensures
            flags@.len() == self@.pending.len(),
            forall|i: int|
                0 <= i < flags@.len() ==> flags@[i] == descends(
                    self@.pending,
                    target,
                    (#[trigger] self@.pending[i]).key,
                ),
    {
        let head = self.head();
        let n = self.pending.len();
        let mut flags: Vec<bool> = Vec::new();
        let mut i: usize = 0;
        while i < n
            invariant
                self@.wf(),
                head == self@.head(),
                n == self.pending.len(),
                i <= n,
                flags@.len() == i,
                forall|j: int|
                    0 <= j < i ==> flags@[j] == descends(
                        self@.pending,
                        target,
                        (#[trigger] self@.pending[j]).key,
                    ),
            decreases n - i,
        {
            let s = self.pending[i];
            proof {
                self@.lemma_descends_unfold(target, i as int);
                self@.lemma_head_descends(target);
                assert(pending_ok(head.key, self@.pending, i as int));
            }
            let flag = if s.key == target {
                true
            } else {
                match s.parent {
                    Some(p) => match self.find_pending(p, i) {
                        Some(j) => flags[j],
                        None => p == target,
                    },
                    None => false,
                }
            };
            flags.push(flag);
            i += 1;
        }
        flags
    }

    /// The pending snapshots that stay: with `below`, the proper descendants
    /// of `target`, which becomes the head; without it, all but the
    /// descendants of `target`.
    fn retain(&self, target: SnapshotKey, below: bool) -> (out: Vec<Snapshot>)
        requires
            self@.wf(),
            below ==> has_key(self@.pending, target) && self@.pending[slot_of(
                self@.pending,
                target,
            )].parent == Some(self@.head().key),
        ensures
            out@ == self@.pending.filter(
                if below {
                    strictly_below(self@.pending, target)
                } else {
                    outside_of(self@.pending, target)
                },
            ),
            forall|k: int|
                0 <= k < out@.len() ==> #[trigger] pending_ok(
                    head_after(self@.head().key, target, below),
                    out@,
                    k,
                ),
            forall|a: int, b: int|
                0 <= a < b < out@.len() ==> (#[trigger] out@[a]).key != (#[trigger] out@[b]).key,
    {
        let flags = self.descent_flags(target);
        let n = self.pending.len();
        let ghost nodes = self@.pending;
        let ghost head = self@.head().key;
        let ghost new_head = head_after(head, target, below);
        let ghost pred = if below {
            strictly_below(nodes, target)
        } else {
            outside_of(nodes, target)
        };
        let mut out: Vec<Snapshot> = Vec::new();
        let ghost mut src: Seq<int> = Seq::empty();
        let mut i: usize = 0;
        proof {
            assert(nodes.take(0) =~= Seq::<Snapshot>::empty());
            nodes.take(0).lemma_all_neg_filter_empty(pred);
            self@.lemma_head_descends(target);
            if below {
                let t = slot_of(nodes, target);
                assert(pending_ok(head, nodes, t));
            }
        }
        while i < n
            invariant
                self@.wf(),
                nodes == self@.pending,
                head == self@.head().key,
                new_head == head_after(head, target, below),
                pred == if below {
                    strictly_below(nodes, target)
                } else {
                    outside_of(nodes, target)
                },
                below ==> target.height == head.height + 1,
                descends(nodes, target, head) == (head == target),
                n == nodes.len(),
                i <= n,
                flags@.len() == n,
                forall|j: int|
                    0 <= j < n ==> flags@[j] == descends(nodes, target, (#[trigger] nodes[j]).key),
                out@ == nodes.take(i as int).filter(pred),
                src.len() == out@.len(),
                forall|k: int|
                    0 <= k < src.len() ==> 0 <= (#[trigger] src[k]) < i && out@[k] == nodes[src[k]],
                forall|a: int, b: int| 0 <= a < b < src.len() ==> (#[trigger] src[a]) < (#[trigger] src[b]),
                forall|j: int|
                    0 <= j < i && pred(#[trigger] nodes[j]) ==> exists|k: int|
                        0 <= k < src.len() && #[trigger] src[k] == j,
                forall|k: int| 0 <= k < out@.len() ==> #[trigger] pending_ok(new_head, out@, k),
            decreases n - i,
        {
            let s = self.pending[i];
            let keep = if below {
                flags[i] && s.key != target
            } else {
                !flags[i]
            };
            proof {
                assert(nodes.take(i as int + 1) =~= nodes.take(i as int).push(s));
                nodes.take(i as int).lemma_filter_push(s, pred);
                assert(keep == pred(s));
                assert(pending_ok(head, nodes, i as int));
                self@.lemma_descends_unfold(target, i as int);
            }
            if keep {
                let ghost before = out@;
                out.push(s);
                proof {
                    let p = s.parent.unwrap();
                    let at = before.len() as int;
                    let old_src = src;
                    src = src.push(i as int);
                    assert forall|j: int| 0 <= j < i + 1 && pred(#[trigger] nodes[j]) implies exists|
                        k: int,
                    | 0 <= k < src.len() && #[trigger] src[k] == j by {
                        if j < i {
                            let w = choose|w: int| 0 <= w < at && #[trigger] old_src[w] == j;
                            assert(src[w] == j);
                        } else {
                            assert(src[at] == j);
                        }
                    }
                    assert forall|k: int| 0 <= k < out@.len() implies pending_ok(
                        new_head,
                        out@,
                        k,
                    ) by {
                        if k < at {
                            assert(pending_ok(new_head, before, k));
                            assert(out@[k] == before[k]);
                            if before[k].parent.unwrap() != new_head {
                                let w = choose|w: int|
                                    0 <= w < k && (#[trigger] before[w]).key
                                        == before[k].parent.unwrap();
                                assert(out@[w].key == out@[k].parent.unwrap());
                            }
                        } else {
                            if p != new_head {
                                assert(p != head);
                                let j = choose|j: int|
                                    0 <= j < i && (#[trigger] nodes[j]).key == p;
                                assert(pred(nodes[j]));
                                let w = choose|w: int| 0 <= w < at && #[trigger] old_src[w] == j;
                                assert(before[w] == nodes[j]);
                                assert(out@[w].key == p);
                                assert(pending_ok(new_head, before, w));
                            }
                        }
                    }
                }
            }
            i += 1;
        }
        proof {
            assert(nodes.take(n as int) =~= nodes);
            assert forall|a: int, b: int| 0 <= a < b < out@.len() implies (#[trigger] out@[a]).key
                != (#[trigger] out@[b]).key by {
                assert(src[a] < src[b]);
                assert(nodes[src[a]].key != nodes[src[b]].key);
            }
        }
        out
    }

    /// Removes the pending snapshot `key` and everything above it.
    ///
    /// A final snapshot is never removed.
    pub fn discard(&mut self, key: SnapshotKey) -> (r: Result<(), StorageError>)
        requires
            old(self)@.wf(),
        ensures
            final(self)@.wf(),
            final(self)@.finalized == old(self)@.finalized,
            r == if old(self)@.is_final(key) {
                Err::<(), StorageError>(StorageError::CannotDiscardFinalized)
            } else if !has_key(old(self)@.pending, key) {
                Err::<(), StorageError>(StorageError::UnknownSnapshot)
            } else {
                Ok::<(), StorageError>(())
            },
            r is Ok ==> final(self)@.pending == old(self)@.pending.filter(
                outside_of(old(self)@.pending, key),
            ),
            r is Err ==> final(self)@.pending == old(self)@.pending,
    {
        if self.find_finalized(key).is_some() {
            return Err(StorageError::CannotDiscardFinalized);
        }
        if self.find_pending(key, self.pending.len()).is_none() {
            return Err(StorageError::UnknownSnapshot);
        }
        let kept = self.retain(key, false);
        proof {
            assert(head_after(self@.head().key, key, false) == self@.head().key);
        }
        self.pending = kept;
        proof {
            assert forall|i: int| 0 <= i < self@.pending.len() implies #[trigger] pending_ok(
                self@.head().key,
                self@.pending,
                i,
            ) by {
                assert(pending_ok(head_after(self@.head().key, key, false), kept@, i));
            }
        }
        Ok(())
    }

    /// Makes the pending snapshot `key` final and drops every pending
    /// snapshot that does not stand above it.
    ///
    /// Only a child of the final head can be committed, and only with the
    /// root that was stored for it.
    pub fn commit(&mut self, key: SnapshotKey, root: StateRoot) -> (r: Result<(), StorageError>)
        requires
            old(self)@.wf(),
        ensures
            final(self)@.wf(),
            r == if !(has_key(old(self)@.pending, key) && old(self)@.pending[slot_of(
                old(self)@.pending,
                key,
            )].parent == Some(old(self)@.head().key)) {
                Err::<(), StorageError>(StorageError::OutOfOrderCommit)
            } else if old(self)@.pending[slot_of(old(self)@.pending, key)].root != root {
                Err::<(), StorageError>(StorageError::RootMismatch)
            } else {
                Ok::<(), StorageError>(())
            },
            r is Ok ==> final(self)@.finalized == old(self)@.finalized.push(
                Snapshot {
                    key,
                    parent: Some(old(self)@.head().key),
                    root,
                    status: SnapshotStatus::Finalized,
                },
            ) && final(self)@.pending == old(self)@.pending.filter(
                strictly_below(old(self)@.pending, key),
            ),
            r is Err ==> final(self)@ == old(self)@,
    {
        let head = self.head();
        let found = self.find_pending(key, self.pending.len());
        let at = match found {
            Some(i) => i,
            None => {
                return Err(StorageError::OutOfOrderCommit);
            },
        };
        proof {
            self@.lemma_slot(at as int);
            assert(pending_ok(head.key, self@.pending, at as int));
        }
        let s = self.pending[at];
        match s.parent {
            Some(p) => {
                if p != head.key {
                    return Err(StorageError::OutOfOrderCommit);
                }
            },
            None => {
                return Err(StorageError::OutOfOrderCommit);
            },
        }
        if s.root != root {
            return Err(StorageError::RootMismatch);
        }
        let kept = self.retain(key, true);
        let promoted = Snapshot {
            key,
            parent: Some(head.key),
            root,
            status: SnapshotStatus::Finalized,
        };
        let ghost chain = self@.finalized;
        self.finalized.push(promoted);
        self.pending = kept;
        proof {
            let after = self@.finalized;
            assert(final_ok(chain, chain.len() - 1));
            assert forall|i: int| 0 <= i < after.len() implies #[trigger] final_ok(after, i) by {
                if i < chain.len() {
                    assert(final_ok(chain, i));
                }
            }
            assert(head_after(head.key, key, true) == key);
            assert(self@.head().key == key);
            assert forall|i: int| 0 <= i < self@.pending.len() implies #[trigger] pending_ok(
                self@.head().key,
                self@.pending,
                i,
            ) by {
                assert(pending_ok(head_after(head.key, key, true), kept@, i));
            }
        }
        Ok(())
    }

    /// A read view of the final snapshots as they are now.
    pub fn create_finalized_storage(&self) -> (view: FinalizedStorage)
        requires
            self@.wf(),
        ensures
            view@ == self@.finalized,
            view.wf(),
    {
        let mut chain: Vec<Snapshot> = Vec::new();
        let n = self.finalized.len();
        let mut i: usize = 0;
        while i < n
            invariant
                n == self.finalized.len(),
                i <= n,
                chain@ == self.finalized@.take(i as int),
            decreases n - i,
        {
            chain.push(self.finalized[i]);
            proof {
                assert(self.finalized@.take(i as int + 1) =~= self.finalized@.take(i as int).push(
                    self.finalized@[i as int],
                ));
            }
            i += 1;
        }
        proof {
            assert(self.finalized@.take(n as int) =~= self.finalized@);
        }
        FinalizedStorage { chain }
    }
}

/// A read view of final state, pinned to the head at the time it was made.
///
/// It holds copies, so later writes to the storage manager do not show in it.
pub struct FinalizedStorage {
    chain: Vec<Snapshot>,
}

impl View for FinalizedStorage {
    type V = Seq<Snapshot>;

    closed spec fn view(&self) -> Seq<Snapshot> {
        self.chain@
    }
}

impl FinalizedStorage {
    /// The view holds a chain of final snapshots without gaps.
    pub open spec fn wf(&self) -> bool {
        (StorageView { finalized: self@, pending: Seq::empty() }).wf()
    }

    /// The snapshot that the view is pinned to.
    pub fn head(&self) -> (s: Snapshot)
        requires
            self.wf(),
        ensures
            s == self@.last(),
    {
        self.chain[self.chain.len() - 1]
    }

    /// The state root that was made final at `height`, if the view holds
    /// that height.
    pub fn get_root_hash(&self, height: u64) -> (r: Option<StateRoot>)
        requires
            self.wf(),
        ensures
            r == if self@[0].key.height <= height <= self@.last().key.height {
                Some(self@[height - self@[0].key.height].root)
            } else {
                None::<StateRoot>
            },
    {
        let base = self.chain[0].key.height;
        proof {
            assert(final_ok(self@, self@.len() - 1));
        }
        if height < base {
            return None;
        }
        let offset: u64 = height - base;
        if offset >= self.chain.len() as u64 {
            return None;
        }
        proof {
            assert(final_ok(self@, offset as int));
        }
        Some(self.chain[offset as usize].root)
    }
}

} // verus!
