//! What holds of the library as a whole, stated over its models and proved.

use vstd::prelude::*;
use crate::finality::FinalityRule;
use crate::ledger::{contiguous, entry_ok};
use crate::notifier::{announce, buffer_ok, ChannelView};
use crate::runner::{lemma_scan, Phase, Request, RunnerError, RunnerView, Step};
use crate::storage::{final_ok, pending_ok, StorageView};
use crate::types::{BlockHash, HeadSlot, SnapshotKey, StateRoot};

verus! {

/// The block that made the chain item `s`.
pub open spec fn key_of(s: HeadSlot) -> SnapshotKey {
    SnapshotKey { height: s.height, hash: s.hash }
}

/// The state root that the transition function `stf` gives when it is
/// applied to `blocks` one after the other, from the state `start`.
pub open spec fn replay(
    stf: spec_fn(StateRoot, SnapshotKey) -> StateRoot,
    start: StateRoot,
    blocks: Seq<SnapshotKey>,
) -> StateRoot
    decreases blocks.len(),
{
    if blocks.len() == 0 {
        start
    } else {
        stf(replay(stf, start, blocks.drop_last()), blocks.last())
    }
}

/// The blocks of a chain above its first item.
pub open spec fn blocks_of(chain: Seq<HeadSlot>) -> Seq<SnapshotKey> {
    Seq::new((chain.len() - 1) as nat, |i: int| key_of(chain[i + 1]))
}

/// Whether the item at place `i` holds the root that `stf` gives for its
/// block from the root of the item before it.
pub open spec fn step_ok(
    stf: spec_fn(StateRoot, SnapshotKey) -> StateRoot,
    chain: Seq<HeadSlot>,
    i: int,
) -> bool {
    chain[i].root == stf(chain[i - 1].root, key_of(chain[i]))
}

/// Whether every root of the chain above the first was computed by `stf`.
pub open spec fn follows(stf: spec_fn(StateRoot, SnapshotKey) -> StateRoot, chain: Seq<HeadSlot>)
    -> bool {
    forall|i: int| 1 <= i < chain.len() ==> #[trigger] step_ok(stf, chain, i)
}

/// The root at the tip of a chain is the transition function applied to
/// the chain's blocks in order, from the root that the chain starts with.
/// It depends on nothing else: not on blocks that were dropped in a
/// reorganisation, nor on when a height was made final.
pub proof fn law_tip_is_replay(stf: spec_fn(StateRoot, SnapshotKey) -> StateRoot, chain: Seq<HeadSlot>)
    requires
        chain.len() >= 1,
        follows(stf, chain),
    ensures
        chain.last().root == replay(stf, chain[0].root, blocks_of(chain)),
    decreases chain.len(),
{
    if chain.len() == 1 {
        assert(blocks_of(chain) =~= Seq::<SnapshotKey>::empty());
    } else {
        let rest = chain.drop_last();
        assert forall|i: int| 1 <= i < rest.len() implies #[trigger] step_ok(stf, rest, i) by {
            assert(step_ok(stf, chain, i));
        }
        law_tip_is_replay(stf, rest);
        assert(step_ok(stf, chain, chain.len() - 1));
        assert(blocks_of(chain).drop_last() =~= blocks_of(rest));
        assert(blocks_of(chain).last() == key_of(chain.last()));
    }
}

/// Two chains that start from the same root and hold the same blocks end
/// in the same root.
pub proof fn law_determinism(
    stf: spec_fn(StateRoot, SnapshotKey) -> StateRoot,
    a: Seq<HeadSlot>,
    b: Seq<HeadSlot>,
)
    requires
        a.len() >= 1,
        b.len() >= 1,
        follows(stf, a),
        follows(stf, b),
        a[0].root == b[0].root,
        blocks_of(a) == blocks_of(b),
    ensures
        a.last().root == b.last().root,
{
    law_tip_is_replay(stf, a);
    law_tip_is_replay(stf, b);
}

/// A runner whose roots were computed by `stf` stays so when a block is
/// reported to it: what it keeps of its chain is a part of what it had.
pub proof fn law_block_keeps_roots(
    stf: spec_fn(StateRoot, SnapshotKey) -> StateRoot,
    v: RunnerView,
    height: u64,
    hash: BlockHash,
    parent: Option<BlockHash>,
)
    requires
        v.wf(),
        follows(stf, v.chain),
    ensures
        follows(stf, v.after_block(height, hash, parent).chain),
{
    let w = v.after_block(height, hash, parent);
    assert(entry_ok(v.chain, v.chain.len() - 1));
    assert(entry_ok(v.chain, v.final_len - 1));
    assert(w.chain.len() <= v.chain.len());
    assert forall|i: int| 1 <= i < w.chain.len() implies #[trigger] step_ok(stf, w.chain, i) by {
        assert(step_ok(stf, v.chain, i));
    }
}

/// A runner whose roots were computed by `stf` stays so when the block
/// in flight is executed by `stf` from the root at the tip.
pub proof fn law_execution_keeps_roots(
    stf: spec_fn(StateRoot, SnapshotKey) -> StateRoot,
    v: RunnerView,
    root: StateRoot,
    da_finalized: u64,
)
    requires
        v.wf(),
        v.in_flight is Some,
        follows(stf, v.chain),
        root == stf(v.tip().root, v.in_flight.unwrap()),
    ensures
        follows(stf, v.after_executed(root, da_finalized).chain),
{
    let w = v.after_executed(root, da_finalized);
    assert forall|i: int| 1 <= i < w.chain.len() implies #[trigger] step_ok(stf, w.chain, i) by {
        if i < v.chain.len() {
            assert(step_ok(stf, v.chain, i));
        }
    }
}

/// After a reorganisation the chain is the old one up to the common
/// ancestor, with the blocks above it gone; so the root that the runner
/// reaches when the new blocks are executed is the transition function
/// over the old blocks up to the ancestor and then the new ones.
pub proof fn law_rewind_keeps_ancestors(
    v: RunnerView,
    height: u64,
    hash: BlockHash,
    parent: Option<BlockHash>,
)
    requires
        v.wf(),
        v.block_outcome(height, hash, parent) is Ok,
        v.block_outcome(height, hash, parent)->Ok_0 is Rewound,
    ensures
        ({
            let lca = v.block_outcome(height, hash, parent)->Ok_0->lca;
            let w = v.after_block(height, hash, parent);
            &&& v.final_head().height < lca <= v.tip().height
            &&& w.tip().height == lca
            &&& w.tip().hash == hash
            &&& w.chain == v.chain.take(w.chain.len() as int)
            &&& w.wf()
        }),
{
    let lca = v.block_outcome(height, hash, parent)->Ok_0->lca;
    let w = v.after_block(height, hash, parent);
    assert(entry_ok(v.chain, v.chain.len() - 1));
    assert(entry_ok(v.chain, v.final_len - 1));
    assert(entry_ok(v.chain, lca - v.chain[0].height));
    assert forall|i: int| 0 <= i < w.chain.len() implies #[trigger] entry_ok(w.chain, i) by {
        assert(entry_ok(v.chain, i));
    }
    assert(w.ledger =~= w.chain.subrange(w.final_len - w.ledger.len(), w.final_len as int));
}

/// What is final stays: a block that is reported changes neither the
/// final part of the chain nor the ledger, and a reorganisation never
/// reaches down to the final height.
pub proof fn law_block_keeps_final(
    v: RunnerView,
    height: u64,
    hash: BlockHash,
    parent: Option<BlockHash>,
)
    requires
        v.wf(),
    ensures
        ({
            let w = v.after_block(height, hash, parent);
            &&& w.final_len == v.final_len
            &&& w.ledger == v.ledger
            &&& w.chain.len() >= v.final_len
            &&& w.chain.take(v.final_len as int) == v.chain.take(v.final_len as int)
        }),
{
    let w = v.after_block(height, hash, parent);
    assert(entry_ok(v.chain, v.chain.len() - 1));
    assert(entry_ok(v.chain, v.final_len - 1));
    assert(w.chain.take(v.final_len as int) =~= v.chain.take(v.final_len as int));
}

/// A fork that leaves the known chain at or below the final height is
/// refused with `FinalityViolation`: both where the walk down the fork
/// would step onto the final height, and where a block does not link to a
/// tip that is final itself.
pub proof fn law_finality_violation(
    v: RunnerView,
    height: u64,
    hash: BlockHash,
    parent: Option<BlockHash>,
)
    requires
        v.wf(),
        v.in_flight is None,
        match v.phase {
            Phase::Diverging { probe, new_tip } => height == probe && hash != v.hash_at(probe)
                && probe - 1 <= v.final_head().height,
            _ => height == v.tip().height + 1 && !v.links(parent) && v.tip().height
                <= v.final_head().height,
        },
    ensures
        v.block_outcome(height, hash, parent) == Err::<Step, RunnerError>(
            RunnerError::FinalityViolation,
        ),
        v.after_block(height, hash, parent) == v,
{
}

/// What is final stays: an execution adds to the chain and to the ledger
/// and takes nothing from them.
pub proof fn law_execution_keeps_final(v: RunnerView, root: StateRoot, da_finalized: u64)
    requires
        v.wf(),
        v.in_flight is Some,
    ensures
        ({
            let w = v.after_executed(root, da_finalized);
            &&& v.final_len <= w.final_len <= w.chain.len()
            &&& w.chain.take(v.chain.len() as int) == v.chain
            &&& w.ledger.take(v.ledger.len() as int) == v.ledger
        }),
{
    let w = v.after_executed(root, da_finalized);
    lemma_scan(w.chain, v.final_len, v.rule, da_finalized);
    assert(w.chain.take(v.chain.len() as int) =~= v.chain);
    assert(w.ledger.take(v.ledger.len() as int) =~= v.ledger);
}

/// The invariant of the runner holds after every block that is reported.
pub proof fn law_block_keeps_wf(
    v: RunnerView,
    height: u64,
    hash: BlockHash,
    parent: Option<BlockHash>,
)
    requires
        v.wf(),
    ensures
        v.after_block(height, hash, parent).wf(),
{
    let w = v.after_block(height, hash, parent);
    assert(entry_ok(v.chain, v.chain.len() - 1));
    assert(entry_ok(v.chain, v.final_len - 1));
    match v.block_outcome(height, hash, parent) {
        Ok(Step::Rewound { lca }) => {
            law_rewind_keeps_ancestors(v, height, hash, parent);
        },
        _ => {},
    }
}

/// The invariant of the runner holds after every execution. With it, the
/// last entry of the ledger is the last item that was made final: the head
/// slot that a restart finds is the point up to which the state is final.
pub proof fn law_execution_keeps_wf(v: RunnerView, root: StateRoot, da_finalized: u64)
    requires
        v.wf(),
        v.in_flight is Some,
    ensures
        v.after_executed(root, da_finalized).wf(),
        v.after_executed(root, da_finalized).ledger.len() > 0 ==> v.after_executed(
            root,
            da_finalized,
        ).ledger.last() == v.after_executed(root, da_finalized).final_head(),
{
    let w = v.after_executed(root, da_finalized);
    lemma_scan(w.chain, v.final_len, v.rule, da_finalized);
    assert(entry_ok(v.chain, v.chain.len() - 1));
    assert forall|i: int| 0 <= i < w.chain.len() implies #[trigger] entry_ok(w.chain, i) by {
        if i < v.chain.len() {
            assert(entry_ok(v.chain, i));
        }
    }
    assert(w.ledger =~= w.chain.subrange(w.final_len - w.ledger.len(), w.final_len as int));
}

/// There is one final snapshot for each height: along the final chain the
/// heights rise strictly.
pub proof fn law_one_final_per_height(sv: StorageView, i: int, j: int)
    requires
        sv.wf(),
        0 <= i < j < sv.finalized.len(),
    ensures
        sv.finalized[i].key.height < sv.finalized[j].key.height,
{
    assert(final_ok(sv.finalized, i));
    assert(final_ok(sv.finalized, j));
}

/// No branch is left at or below the final height: every pending snapshot
/// stands above the head, and every final one at or below it.
pub proof fn law_pending_above_final(sv: StorageView, i: int, k: int)
    requires
        sv.wf(),
        0 <= i < sv.pending.len(),
        0 <= k < sv.finalized.len(),
    ensures
        sv.finalized[k].key.height <= sv.head().key.height < sv.pending[i].key.height,
{
    assert(pending_ok(sv.head().key, sv.pending, i));
    assert(final_ok(sv.finalized, k));
    assert(final_ok(sv.finalized, sv.finalized.len() - 1));
}

/// The view of a runner that starts from the head slot `head`.
pub open spec fn resumed(head: HeadSlot, rule: FinalityRule, retry_bound: nat) -> RunnerView {
    RunnerView {
        chain: seq![head],
        final_len: 1,
        ledger: seq![head],
        phase: Phase::Following,
        in_flight: None,
        attempts: 0,
        rule,
        retry_bound,
    }
}

/// After a crash the node resumes from the head slot that the ledger
/// holds, which is the last item that the runner made final. The resumed
/// runner asks for the height above it and refuses any block at or below
/// it: nothing that is final is applied again.
pub proof fn law_resume(v: RunnerView, height: u64, hash: BlockHash, parent: Option<BlockHash>)
    requires
        v.wf(),
        v.ledger.len() > 0,
        height <= v.ledger.last().height,
    ensures
        v.ledger.last() == v.final_head(),
        resumed(v.ledger.last(), v.rule, v.retry_bound).wf(),
        resumed(v.ledger.last(), v.rule, v.retry_bound).request() == if v.final_head().height
            == u64::MAX {
            Request::Done
        } else {
            Request::Block { height: (v.final_head().height + 1) as u64 }
        },
        resumed(v.ledger.last(), v.rule, v.retry_bound).block_outcome(height, hash, parent)
            == Err::<Step, RunnerError>(RunnerError::UnexpectedEvent),
{
    let w = resumed(v.ledger.last(), v.rule, v.retry_bound);
    assert(entry_ok(w.chain, 0));
    assert(w.ledger =~= w.chain.subrange(0, 1));
}

/// The heights of entries that rise by one from each to the next rise
/// strictly, and leave no height out.
pub proof fn law_heights_rise(entries: Seq<HeadSlot>, i: int, j: int)
    requires
        contiguous(entries),
        0 <= i < j < entries.len(),
    ensures
        entries[i].height < entries[j].height,
        entries[j].height - entries[i].height == j - i,
{
    assert(entry_ok(entries, i));
    assert(entry_ok(entries, j));
}

/// The ledger of a runner is written in rising order of height without
/// gaps, and stays so when an execution adds to it.
pub proof fn law_commits_monotonic(v: RunnerView, root: StateRoot, da_finalized: u64)
    requires
        v.wf(),
        v.in_flight is Some,
    ensures
        contiguous(v.ledger),
        contiguous(v.after_executed(root, da_finalized).ledger),
{
    let first = v.final_len - v.ledger.len();
    if v.ledger.len() > 0 {
        assert(entry_ok(v.chain, first));
    }
    assert forall|i: int| 0 <= i < v.ledger.len() implies #[trigger] entry_ok(v.ledger, i) by {
        assert(entry_ok(v.chain, first + i));
    }
    let w = v.after_executed(root, da_finalized);
    lemma_scan(w.chain, v.final_len, v.rule, da_finalized);
    assert(entry_ok(v.chain, v.chain.len() - 1));
    assert forall|i: int| 0 <= i < w.chain.len() implies #[trigger] entry_ok(w.chain, i) by {
        if i < v.chain.len() {
            assert(entry_ok(v.chain, i));
        }
    }
    let start = if v.ledger.len() > 0 {
        first
    } else {
        v.final_len as int
    };
    assert(entry_ok(w.chain, start));
    assert forall|i: int| 0 <= i < w.ledger.len() implies #[trigger] entry_ok(w.ledger, i) by {
        if v.ledger.len() > 0 {
            assert(w.ledger[i] == w.chain[first + i]);
            assert(w.ledger[0] == w.chain[first]);
            assert(entry_ok(w.chain, first + i));
        } else {
            assert(w.ledger[i] == w.chain[v.final_len + i]);
            assert(entry_ok(w.chain, v.final_len + i));
        }
    }
}

/// Each commit is announced by exactly one message: publishing for a list
/// of commits adds their announcements, in order, to what was sent, and
/// nothing else.
pub proof fn law_one_message_per_commit(v: ChannelView, commits: Seq<HeadSlot>)
    ensures
        v.published_all(commits).sent == v.sent + Seq::new(
            commits.len(),
            |i: int| announce(commits[i]),
        ),
    decreases commits.len(),
{
    let news = Seq::new(commits.len(), |i: int| announce(commits[i]));
    if commits.len() == 0 {
        assert(v.sent + news =~= v.sent);
    } else {
        let rest = commits.drop_last();
        law_one_message_per_commit(v, rest);
        let less = Seq::new(rest.len(), |i: int| announce(rest[i]));
        assert(v.sent + news =~= (v.sent + less).push(announce(commits.last())));
    }
}

/// A subscriber never sees a message from before it attached: each
/// message that it has unread stands in the list of what was sent at a
/// place after all that had been sent when it attached.
pub proof fn law_no_replay(v: ChannelView, id: int, k: int)
    requires
        v.wf(),
        0 <= id < v.unread.len(),
        0 <= k < v.unread[id].len(),
    ensures
        ({
            let place = v.sent.len() - v.unread[id].len() + k;
            &&& v.joined[id] <= place < v.sent.len()
            &&& v.unread[id][k] == v.sent[place]
        }),
{
    assert(buffer_ok(v, id));
}

} // verus!
