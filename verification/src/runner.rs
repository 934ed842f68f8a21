//! The runner: the decisions of the block-processing loop.
//!
//! The loop itself waits on the data-availability layer and on the
//! state-transition function, so it lives with the caller. After each of
//! those calls the caller hands the outcome to the runner, which decides
//! what is to be done next: execute a block, look further down for the point
//! where a fork left the known chain, or stop.

use vstd::prelude::*;
use crate::chain_index::ChainIndex;
use crate::finality::FinalityRule;
use crate::ledger::{contiguous, entry_ok, LedgerStore};
use crate::storage::{final_ok, link_ok, StorageManager, StorageView};
use crate::types::{Block, BlockHash, HeadSlot, Snapshot, SnapshotKey, StateRoot};

verus! {

/// Where the runner stands in the handling of reorganisations.
#[derive(Clone, Copy, Debug, PartialEq, Eq, Structural)]
pub enum Phase {
    /// Blocks are applied at the tip.
    Following,
    /// A block did not fit the known chain. The runner walks down from the
    /// tip; `probe` is the height that it compares next, `new_tip` the height
    /// of the block that did not fit.
    Diverging { probe: u64, new_tip: u64 },
    /// The common ancestor was found and the blocks above it are applied
    /// again, up to `new_tip`.
    Recovering { new_tip: u64 },
}

/// Why the runner stops.
#[derive(Clone, Copy, Debug, PartialEq, Eq, Structural)]
pub enum RunnerError {
    /// The data-availability layer had no block within the bound on attempts.
    NoBlockAvailable,
    /// A fork leaves the known chain at or below the final height.
    FinalityViolation,
    /// The walk down a fork could not be completed.
    UnreconcilableFork,
    /// The storage manager or the ledger refused a write.
    StorageInvariantViolation,
    /// The state-transition function failed.
    StfExecutionError,
    /// The caller reported something that the runner had not asked for.
    UnexpectedEvent,
}

/// What the runner asks of its caller.
#[derive(Clone, Copy, Debug, PartialEq, Eq, Structural)]
pub enum Request {
    /// Fetch the block at this height.
    Block { height: u64 },
    /// Fetch the block that the data-availability layer now has at this
    /// height, to compare it with the known chain.
    Ancestor { height: u64 },
    /// Apply the state-transition function to the block `key`, from the
    /// state `prior_root`.
    Execute { prior_root: StateRoot, key: SnapshotKey },
    /// Nothing: the chain has reached the greatest height there is.
    Done,
}

/// What the runner made of a block.
#[derive(Clone, Copy, Debug, PartialEq, Eq, Structural)]
pub enum Step {
    /// The block extends the tip and is to be executed from `prior_root`.
    Execute { prior_root: StateRoot },
    /// The known chain and the data-availability layer disagree; the block
    /// at `height` is compared next.
    Probe { height: u64 },
    /// They agree at `lca`; everything above it was dropped.
    Rewound { lca: u64 },
}

/// The height, hash and root of a snapshot.
pub open spec fn slot(s: Snapshot) -> HeadSlot {
    HeadSlot { height: s.key.height, hash: s.key.hash, root: s.root }
}

/// The canonical chain that a forest in the shape of a chain holds: the
/// final snapshots, then the pending ones.
pub open spec fn chain_of(sv: StorageView) -> Seq<HeadSlot> {
    Seq::new(
        sv.finalized.len() + sv.pending.len(),
        |i: int|
            if i < sv.finalized.len() {
                slot(sv.finalized[i])
            } else {
                slot(sv.pending[i - sv.finalized.len()])
            },
    )
}

/// The heights of a chain-shaped forest rise by one along its chain.
pub proof fn lemma_chain_contiguous(sv: StorageView)
    requires
        sv.wf(),
        sv.is_chain(),
    ensures
        contiguous(chain_of(sv)),
{
    let chain = chain_of(sv);
    let n = sv.finalized.len() as int;
    assert(final_ok(sv.finalized, 0));
    assert(final_ok(sv.finalized, n - 1));
    assert forall|i: int| 0 <= i < chain.len() implies #[trigger] entry_ok(chain, i) by {
        if i < n {
            assert(final_ok(sv.finalized, i));
        } else {
            assert(link_ok(sv.head().key, sv.pending, i - n));
        }
    }
}

/// How many items of `chain` are final once the commit scan has run from
/// place `from`: the scan makes the items final one by one, lowest first,
/// for as long as the rule allows the next one.
pub open spec fn scan(chain: Seq<HeadSlot>, from: nat, rule: FinalityRule, da_finalized: u64) -> nat
    decreases chain.len() - from,
{
    if from < chain.len() && rule.allows(
        chain[from as int].height,
        chain.last().height,
        da_finalized,
    ) {
        scan(chain, from + 1, rule, da_finalized)
    } else {
        from
    }
}

/// The scan stops at the first item that the rule does not allow, and at
/// no other.
pub proof fn lemma_scan(chain: Seq<HeadSlot>, from: nat, rule: FinalityRule, da_finalized: u64)
    requires
        from <= chain.len(),
    ensures
        from <= scan(chain, from, rule, da_finalized) <= chain.len(),
        forall|i: int|
            from <= i < scan(chain, from, rule, da_finalized) ==> rule.allows(
                (#[trigger] chain[i]).height,
                chain.last().height,
                da_finalized,
            ),
        scan(chain, from, rule, da_finalized) < chain.len() ==> !rule.allows(
            chain[scan(chain, from, rule, da_finalized) as int].height,
            chain.last().height,
            da_finalized,
        ),
    decreases chain.len() - from,
{
    if from < chain.len() && rule.allows(
        chain[from as int].height,
        chain.last().height,
        da_finalized,
    ) {
        lemma_scan(chain, from + 1, rule, da_finalized);
    }
}

/// The mathematical content of a runner.
pub struct RunnerView {
    /// The canonical chain, from the lowest final height held to the tip.
    pub chain: Seq<HeadSlot>,
    /// How many items of `chain` are final.
    pub final_len: nat,
    /// The entries of the ledger.
    pub ledger: Seq<HeadSlot>,
    pub phase: Phase,
    /// The block that was handed out for execution and is not applied yet.
    pub in_flight: Option<SnapshotKey>,
    /// How often in a row the data-availability layer had no block.
    pub attempts: nat,
    pub rule: FinalityRule,
    pub retry_bound: nat,
}

impl RunnerView {
    /// The last item of the canonical chain.
    pub open spec fn tip(self) -> HeadSlot {
        self.chain.last()
    }

    /// The last final item of the canonical chain.
    pub open spec fn final_head(self) -> HeadSlot {
        self.chain[self.final_len - 1]
    }

    /// The hash that the chain index holds at `height`.
    pub open spec fn hash_at(self, height: u64) -> BlockHash {
        self.chain[height - self.chain[0].height].hash
    }

    /// Whether a block with the parent hash `parent` fits above the tip.
    pub open spec fn links(self, parent: Option<BlockHash>) -> bool {
        match parent {
            Some(p) => p == self.tip().hash,
            None => true,
        }
    }

    /// What holds of every runner: the chain has no gaps, a part of it is
    /// final, the ledger holds the last final items of the chain, and the
    /// walk down a fork stays above the final height.
    pub open spec fn wf(self) -> bool {
        &&& 1 <= self.final_len <= self.chain.len()
        &&& contiguous(self.chain)
        &&& self.ledger.len() <= self.final_len
        &&& self.ledger == self.chain.subrange(
            self.final_len - self.ledger.len(),
            self.final_len as int,
        )
        &&& (self.attempts == 0 || self.attempts < self.retry_bound)
        &&& match self.phase {
            Phase::Diverging { probe, new_tip } => {
                &&& self.final_head().height < probe <= self.tip().height
                &&& self.tip().height < new_tip
                &&& self.in_flight is None
            },
            _ => true,
        }
        &&& match self.in_flight {
            Some(k) => k.height == self.tip().height + 1,
            None => true,
        }
    }

    /// What the runner makes of the block with this height, hash and parent
    /// hash.
    ///
    /// While it walks down a fork, the block is the one that the
    /// data-availability layer now has at the probed height: where its hash
    /// is the known one, the common ancestor is found; where not, the walk
    /// goes one height down, and ends with `FinalityViolation` where that
    /// height is final. Otherwise the block must stand one above the tip: it
    /// is executed where it links to the tip, and starts a walk where it does
    /// not, which ends at once with `FinalityViolation` where the tip itself
    /// is final.
    pub open spec fn block_outcome(self, height: u64, hash: BlockHash, parent: Option<BlockHash>)
        -> Result<Step, RunnerError> {
        if self.in_flight is Some {
            Err(RunnerError::UnexpectedEvent)
        } else {
            match self.phase {
                Phase::Diverging { probe, new_tip } => if height != probe {
                    Err(RunnerError::UnexpectedEvent)
                } else if hash == self.hash_at(probe) {
                    Ok(Step::Rewound { lca: probe })
                } else if probe - 1 <= self.final_head().height {
                    Err(RunnerError::FinalityViolation)
                } else {
                    Ok(Step::Probe { height: (probe - 1) as u64 })
                },
                _ => if height != self.tip().height + 1 {
                    Err(RunnerError::UnexpectedEvent)
                } else if self.links(parent) {
                    Ok(Step::Execute { prior_root: self.tip().root })
                } else if self.tip().height <= self.final_head().height {
                    Err(RunnerError::FinalityViolation)
                } else {
                    Ok(Step::Probe { height: self.tip().height })
                },
            }
        }
    }

    /// The state after the block with this height, hash and parent hash was
    /// reported. A block that is refused leaves the state as it was.
    pub open spec fn after_block(self, height: u64, hash: BlockHash, parent: Option<BlockHash>)
        -> RunnerView {
        match self.block_outcome(height, hash, parent) {
            Err(_) => self,
            Ok(Step::Execute { prior_root }) => RunnerView {
                in_flight: Some(SnapshotKey { height, hash }),
                attempts: 0,
                ..self
            },
            Ok(Step::Probe { height: next }) => RunnerView {
                phase: Phase::Diverging {
                    probe: next,
                    new_tip: match self.phase {
                        Phase::Diverging { probe, new_tip } => new_tip,
                        _ => height,
                    },
                },
                attempts: 0,
                ..self
            },
            Ok(Step::Rewound { lca }) => RunnerView {
                chain: self.chain.take(lca - self.chain[0].height + 1),
                phase: Phase::Recovering {
                    new_tip: match self.phase {
                        Phase::Diverging { probe, new_tip } => new_tip,
                        _ => height,
                    },
                },
                attempts: 0,
                ..self
            },
        }
    }

    /// The state after the block in flight was executed with the result
    /// `root`: the chain has grown by that block, the commit scan has run,
    /// and the ledger has got what the scan made final.
    pub open spec fn after_executed(self, root: StateRoot, da_finalized: u64) -> RunnerView {
        let key = self.in_flight.unwrap();
        let grown = self.chain.push(HeadSlot { height: key.height, hash: key.hash, root });
        let final_len = scan(grown, self.final_len, self.rule, da_finalized);
        RunnerView {
            chain: grown,
            final_len,
            ledger: self.ledger + grown.subrange(self.final_len as int, final_len as int),
            phase: match self.phase {
                Phase::Recovering { new_tip } => if new_tip <= key.height {
                    Phase::Following
                } else {
                    Phase::Recovering { new_tip }
                },
                p => p,
            },
            in_flight: None,
            ..self
        }
    }

    /// What the runner asks for in this state.
    pub open spec fn request(self) -> Request {
        match self.in_flight {
            Some(key) => Request::Execute { prior_root: self.tip().root, key },
            None => match self.phase {
                Phase::Diverging { probe, new_tip } => Request::Ancestor { height: probe },
                _ => if self.tip().height == u64::MAX {
                    Request::Done
                } else {
                    Request::Block { height: (self.tip().height + 1) as u64 }
                },
            },
        }
    }
}

/// The block-processing state of a node.
pub struct Runner {
    storage: StorageManager,
    ledger: LedgerStore,
    index: ChainIndex,
    rule: FinalityRule,
    retry_bound: u32,
    attempts: u32,
    phase: Phase,
    in_flight: Option<SnapshotKey>,
}

impl View for Runner {
    type V = RunnerView;

    closed spec fn view(&self) -> RunnerView {
        RunnerView {
            chain: chain_of(self.storage@),
            final_len: self.storage@.finalized.len(),
            ledger: self.ledger@,
            phase: self.phase,
            in_flight: self.in_flight,
            attempts: self.attempts as nat,
            rule: self.rule,
            retry_bound: self.retry_bound as nat,
        }
    }
}

impl Runner {
    /// How the parts of the runner hang together: the forest is one chain,
    /// and the chain index holds its hashes.
    pub closed spec fn inv(&self) -> bool {
        &&& self.storage@.wf()
        &&& self.storage@.is_chain()
        &&& self.ledger.wf()
        &&& self.index@.wf()
        &&& self.index@.base == self.storage@.finalized[0].key.height
        &&& self.index@.hashes.len() == chain_of(self.storage@).len()
        &&& forall|i: int|
            0 <= i < self.index@.hashes.len() ==> #[trigger] self.index@.hashes[i] == chain_of(
                self.storage@,
            )[i].hash
    }

    /// The invariant of the runner.
    pub open spec fn wf(&self) -> bool {
        self.inv() && self@.wf()
    }

    /// A runner at startup. It resumes from `persisted`, the head slot that
    /// the ledger held, and starts from `genesis` where the ledger was empty.
    pub fn new(
        genesis: HeadSlot,
        persisted: Option<HeadSlot>,
        rule: FinalityRule,
        retry_bound: u32,
    ) -> (r: Runner)
        ensures
            r.wf(),
            r@ == (RunnerView {
                chain: seq![
                    match persisted {
                        Some(h) => h,
                        None => genesis,
                    },
                ],
                final_len: 1,
                ledger: match persisted {
                    Some(h) => seq![h],
                    None => Seq::<HeadSlot>::empty(),
                },
                phase: Phase::Following,
                in_flight: None,
                attempts: 0,
                rule,
                retry_bound: retry_bound as nat,
            }),
    {
        let start = match persisted {
            Some(h) => h,
            None => genesis,
        };
        let storage = StorageManager::new(
            SnapshotKey { height: start.height, hash: start.hash },
            start.root,
        );
        let ledger = LedgerStore::new(persisted);
        let index = ChainIndex::new(start.height, start.hash);
        let r = Runner {
            storage,
            ledger,
            index,
            rule,
            retry_bound,
            attempts: 0,
            phase: Phase::Following,
            in_flight: None,
        };
        proof {
            assert(chain_of(r.storage@) =~= seq![start]);
            assert(r@.ledger =~= r@.chain.subrange(
                r@.final_len - r@.ledger.len(),
                r@.final_len as int,
            ));
            assert(entry_ok(r@.chain, 0));
        }
        r
    }

    /// The state root at the tip of the canonical chain.
    pub fn get_state_root(&self) -> (root: StateRoot)
        requires
            self.wf(),
        ensures
            root == self@.tip().root,
    {
        let n = self.storage.pending_len();
        if n > 0 {
            self.storage.pending_at(n - 1).root
        } else {
            self.storage.head().root
        }
    }

    /// The height of the tip of the canonical chain.
    pub fn tip_height(&self) -> (h: u64)
        requires
            self.wf(),
        ensures
            h == self@.tip().height,
    {
        proof {
            assert(entry_ok(self@.chain, self@.chain.len() - 1));
            assert(final_ok(self.storage@.finalized, 0));
        }
        self.index.tip_height()
    }

    /// The height that was made final last.
    pub fn finalized_height(&self) -> (h: u64)
        requires
            self.wf(),
        ensures
            h == self@.final_head().height,
    {
        self.storage.head().key.height
    }

    /// Where the runner stands in the handling of reorganisations.
    pub fn phase(&self) -> (p: Phase)
        ensures
            p == self@.phase,
    {
        self.phase
    }

    /// The ledger that the runner writes its commits to.
    pub fn ledger(&self) -> (l: &LedgerStore)
        ensures
            l@ == self@.ledger,
            self.wf() ==> l.wf(),
    {
        &self.ledger
    }

    /// The storage manager that holds the runner's snapshots.
    pub fn storage(&self) -> (s: &StorageManager)
        ensures
            chain_of(s@) == self@.chain,
            s@.finalized.len() == self@.final_len,
            self.wf() ==> s@.wf() && s@.is_chain(),
    {
        &self.storage
    }

    /// What the caller is to do next.
    pub fn next_request(&self) -> (r: Request)
        requires
            self.wf(),
        ensures
            r == self@.request(),
    {
        match self.in_flight {
            Some(key) => Request::Execute { prior_root: self.get_state_root(), key },
            None => match self.phase {
                Phase::Diverging { probe, new_tip } => Request::Ancestor { height: probe },
                _ => {
                    let tip = self.tip_height();
                    if tip == u64::MAX {
                        Request::Done
                    } else {
                        Request::Block { height: tip + 1 }
                    }
                },
            },
        }
    }

    /// The data-availability layer had no block at the height asked for.
    ///
    /// The caller may try again until the bound on attempts is reached. Then
    /// the runner stops: with `UnreconcilableFork` while it walks down a
    /// fork, with `NoBlockAvailable` otherwise.
    pub fn on_unavailable(&mut self) -> (r: Result<(), RunnerError>)
        requires
            old(self).wf(),
        ensures
            final(self).wf(),
            r == if old(self)@.attempts + 1 < old(self)@.retry_bound {
                Ok::<(), RunnerError>(())
            } else if old(self)@.phase is Diverging {
                Err::<(), RunnerError>(RunnerError::UnreconcilableFork)
            } else {
                Err::<(), RunnerError>(RunnerError::NoBlockAvailable)
            },
            final(self)@ == if r is Ok {
                RunnerView { attempts: old(self)@.attempts + 1, ..old(self)@ }
            } else {
                old(self)@
            },
    {
        if self.attempts < self.retry_bound && self.attempts + 1 < self.retry_bound {
            self.attempts = self.attempts + 1;
            Ok(())
        } else {
            match self.phase {
                Phase::Diverging { probe, new_tip } => Err(RunnerError::UnreconcilableFork),
                _ => Err(RunnerError::NoBlockAvailable),
            }
        }
    }

    /// What `inv` says of the chain index, height by height.
    proof fn lemma_index(&self, height: u64)
        requires
            self.wf(),
            self@.chain[0].height <= height <= self@.tip().height,
        ensures
            self.index@.holds(height),
            self.index@.at(height) == self@.hash_at(height),
            self@.chain[0].height == self.storage@.finalized[0].key.height,
            self@.tip().height == self.index@.tip(),
    {
        assert(entry_ok(self@.chain, self@.chain.len() - 1));
        assert(final_ok(self.storage@.finalized, 0));
        let i = height - self@.chain[0].height;
        assert(self.index@.hashes[i] == chain_of(self.storage@)[i].hash);
    }

    /// The block hash that the chain index holds at `height`, if the
    /// canonical chain holds that height.
    pub fn block_hash_at(&self, height: u64) -> (r: Option<BlockHash>)
        requires
            self.wf(),
        ensures
            r == if self@.chain[0].height <= height <= self@.tip().height {
                Some(self@.hash_at(height))
            } else {
                None::<BlockHash>
            },
    {
        proof {
            assert(entry_ok(self@.chain, self@.chain.len() - 1));
            self.lemma_index(self@.tip().height);
            if self@.chain[0].height <= height <= self@.tip().height {
                self.lemma_index(height);
            }
        }
        self.index.get(height)
    }

    /// The data-availability layer handed out `block` for the height that
    /// the runner asked for.
    ///
    /// The runner decides by the block's height, hash and parent hash alone.
    /// A finding of the common ancestor drops every snapshot above it; the
    /// blocks above it are then asked for again.
    pub fn on_block(&mut self, block: &Block) -> (r: Result<Step, RunnerError>)
        requires
            old(self).wf(),
        ensures
            final(self).wf(),
            r == old(self)@.block_outcome(block.height, block.hash, block.parent),
            final(self)@ == old(self)@.after_block(block.height, block.hash, block.parent),
    {
        if self.in_flight.is_some() {
            return Err(RunnerError::UnexpectedEvent);
        }
        let tip = self.tip_height();
        let fin = self.finalized_height();
        proof {
            assert(entry_ok(self@.chain, self@.chain.len() - 1));
            assert(entry_ok(self@.chain, self@.final_len - 1));
            self.lemma_index(tip);
            assert(fin == self@.chain[0].height + self@.final_len - 1);
            assert(tip == self@.chain[0].height + self@.chain.len() - 1);
        }
        match self.phase {
            Phase::Diverging { probe, new_tip } => {
                if block.height != probe {
                    return Err(RunnerError::UnexpectedEvent);
                }
                proof {
                    self.lemma_index(probe);
                }
                let known = match self.index.get(probe) {
                    Some(h) => h,
                    None => {
                        return Err(RunnerError::StorageInvariantViolation);
                    },
                };
                if block.hash == known {
                    if probe < tip {
                        let held = self.storage.pending_len();
                        assert(probe - fin < held);
                        let place: usize = (probe - fin) as usize;
                        let doomed = self.storage.pending_at(place);
                        proof {
                            let sv = self.storage@;
                            assert(sv.pending[place as int].key == doomed.key);
                            if sv.is_final(doomed.key) {
                                sv.lemma_final_not_pending(doomed.key);
                            }
                            sv.lemma_discard_chain(place as int);
                        }
                        match self.storage.discard(doomed.key) {
                            Ok(()) => {},
                            Err(_) => {
                                return Err(RunnerError::StorageInvariantViolation);
                            },
                        }
                        self.index.truncate_above(probe);
                        proof {
                            let before = old(self).storage@;
                            let after = self.storage@;
                            assert(after.pending == before.pending.take(place as int));
                            assert forall|i: int| 0 <= i < after.pending.len() implies #[trigger] link_ok(
                                after.head().key,
                                after.pending,
                                i,
                            ) by {
                                assert(link_ok(before.head().key, before.pending, i));
                            }
                            assert(after.finalized == before.finalized);
                            assert(probe - chain_of(before)[0].height + 1 == before.finalized.len()
                                + place);
                            assert(chain_of(after) =~= chain_of(before).take(
                                before.finalized.len() + place,
                            ));
                        }
                    } else {
                        proof {
                            let c = old(self)@.chain;
                            assert(c.take(probe - c[0].height + 1) =~= c);
                        }
                    }
                    self.phase = Phase::Recovering { new_tip };
                    self.attempts = 0;
                    proof {
                        lemma_chain_contiguous(self.storage@);
                        assert(self@.ledger =~= self@.chain.subrange(
                            self@.final_len - self@.ledger.len(),
                            self@.final_len as int,
                        ));
                    }
                    Ok(Step::Rewound { lca: probe })
                } else if probe - 1 <= fin {
                    Err(RunnerError::FinalityViolation)
                } else {
                    self.phase = Phase::Diverging { probe: probe - 1, new_tip };
                    self.attempts = 0;
                    Ok(Step::Probe { height: probe - 1 })
                }
            },
            _ => {
                if tip == u64::MAX || block.height != tip + 1 {
                    return Err(RunnerError::UnexpectedEvent);
                }
                let known = match self.index.get(tip) {
                    Some(h) => h,
                    None => {
                        return Err(RunnerError::StorageInvariantViolation);
                    },
                };
                let fits = match block.parent {
                    Some(p) => p == known,
                    None => true,
                };
                if fits {
                    let prior_root = self.get_state_root();
                    self.in_flight = Some(SnapshotKey { height: block.height, hash: block.hash });
                    self.attempts = 0;
                    Ok(Step::Execute { prior_root })
                } else if tip <= fin {
                    Err(RunnerError::FinalityViolation)
                } else {
                    self.phase = Phase::Diverging { probe: tip, new_tip: block.height };
                    self.attempts = 0;
                    Ok(Step::Probe { height: tip })
                }
            },
        }
    }

    /// The key of the snapshot at the tip of the canonical chain.
    fn tip_key(&self) -> (k: SnapshotKey)
        requires
            self.wf(),
        ensures
            k == (SnapshotKey { height: self@.tip().height, hash: self@.tip().hash }),
            self.storage@.is_live(k),
    {
        let n = self.storage.pending_len();
        if n > 0 {
            let s = self.storage.pending_at(n - 1);
            assert(self.storage@.pending[n - 1].key == s.key);
            s.key
        } else {
            self.storage.head().key
        }
    }

    /// The state-transition function has run on the block in flight:
    /// `outcome` is the new state root, or `None` where it failed.
    ///
    /// The runner adds the snapshot at the tip and then makes final, lowest
    /// first, every pending height that the finality rule allows, given the
    /// final height `da_finalized` that the data-availability layer reports.
    /// It returns what it made final, in the order in which it was written to
    /// the ledger: one item for each commit.
    pub fn on_executed(&mut self, outcome: Option<StateRoot>, da_finalized: u64) -> (r: Result<
        Vec<HeadSlot>,
        RunnerError,
    >)
        requires
            old(self).wf(),
        ensures
            final(self).wf(),
            old(self)@.in_flight is None ==> r is Err && r->Err_0 == RunnerError::UnexpectedEvent,
            old(self)@.in_flight is Some && outcome is None ==> r is Err && r->Err_0
                == RunnerError::StfExecutionError,
            r is Ok <==> old(self)@.in_flight is Some && outcome is Some,
            r is Err ==> final(self)@ == old(self)@,
            r is Ok ==> final(self)@ == old(self)@.after_executed(outcome.unwrap(), da_finalized)
                && r->Ok_0@ == final(self)@.chain.subrange(
                old(self)@.final_len as int,
                final(self)@.final_len as int,
            ),
    {
        let key = match self.in_flight {
            Some(k) => k,
            None => {
                return Err(RunnerError::UnexpectedEvent);
            },
        };
        let root = match outcome {
            Some(root) => root,
            None => {
                return Err(RunnerError::StfExecutionError);
            },
        };
        let parent = self.tip_key();
        let ghost before = self.storage@;
        let ghost first_len = self@.final_len;
        let ghost old_ledger = self@.ledger;
        let ghost grown = self@.chain.push(HeadSlot { height: key.height, hash: key.hash, root });
        proof {
            assert(entry_ok(self@.chain, self@.chain.len() - 1));
            assert(entry_ok(self@.chain, self@.final_len - 1));
            self.lemma_index(self@.tip().height);
            assert forall|i: int| 0 <= i < before.pending.len() implies (
            #[trigger] before.pending[i]).key != key by {
                assert(link_ok(before.head().key, before.pending, i));
            }
        }
        match self.storage.new_snapshot(parent, key.height, key.hash, root) {
            Ok(_) => {},
            Err(_) => {
                return Err(RunnerError::StorageInvariantViolation);
            },
        }
        if !self.index.push(key.hash) {
            return Err(RunnerError::StorageInvariantViolation);
        }
        self.in_flight = None;
        match self.phase {
            Phase::Recovering { new_tip } => {
                if new_tip <= key.height {
                    self.phase = Phase::Following;
                }
            },
            _ => {},
        }
        proof {
            let after = self.storage@;
            assert(chain_of(after) =~= grown);
            assert forall|i: int| 0 <= i < after.pending.len() implies #[trigger] link_ok(
                after.head().key,
                after.pending,
                i,
            ) by {
                if i < before.pending.len() {
                    assert(link_ok(before.head().key, before.pending, i));
                } else if i > 0 {
                    assert(link_ok(before.head().key, before.pending, i - 1));
                }
            }
            assert forall|i: int| 0 <= i < self.index@.hashes.len() implies (
            #[trigger] self.index@.hashes[i]) == grown[i].hash by {
                if i < old(self).index@.hashes.len() {
                    assert(old(self).index@.hashes[i] == chain_of(before)[i].hash);
                }
            }
            assert(old_ledger =~= grown.subrange(first_len - old_ledger.len(), first_len as int));
            lemma_chain_contiguous(after);
        }
        let mut commits: Vec<HeadSlot> = Vec::new();
        let mut more = true;
        while more
            invariant
                self.storage@.wf(),
                self.storage@.is_chain(),
                chain_of(self.storage@) == grown,
                contiguous(grown),
                grown.last().height == key.height,
                self.ledger.wf(),
                self.ledger@ == old_ledger + commits@,
                old_ledger == grown.subrange(first_len - old_ledger.len(), first_len as int),
                old_ledger.len() <= first_len,
                1 <= first_len <= self.storage@.finalized.len(),
                commits@ == grown.subrange(first_len as int, self.storage@.finalized.len() as int),
                scan(grown, self.storage@.finalized.len(), self.rule, da_finalized) == scan(
                    grown,
                    first_len,
                    self.rule,
                    da_finalized,
                ),
                !more ==> scan(grown, self.storage@.finalized.len(), self.rule, da_finalized)
                    == self.storage@.finalized.len(),
                before.finalized.len() >= 1,
                self.storage@.finalized[0] == before.finalized[0],
                self.index == old(self).index || self.index@.hashes == old(self).index@.hashes.push(
                    key.hash,
                ),
                self.index@.wf(),
                self.index@.base == before.finalized[0].key.height,
                self.index@.hashes.len() == grown.len(),
                forall|i: int|
                    0 <= i < self.index@.hashes.len() ==> (#[trigger] self.index@.hashes[i])
                        == grown[i].hash,
                self.rule == old(self).rule,
                self.retry_bound == old(self).retry_bound,
                self.attempts == old(self).attempts,
                self.in_flight is None,
                self.phase == old(self)@.after_executed(root, da_finalized).phase,
            decreases self.storage@.pending.len() + (if more { 1nat } else { 0nat }),
        {
            if self.storage.pending_len() == 0 {
                more = false;
            } else {
                let s = self.storage.pending_at(0);
                let ghost sv = self.storage@;
                let ghost at = sv.finalized.len() as int;
                proof {
                    assert(grown[at] == slot(sv.pending[0]));
                    assert(link_ok(sv.head().key, sv.pending, 0));
                    sv.lemma_slot(0);
                    sv.lemma_commit_chain();
                    assert(entry_ok(grown, at));
                    assert(entry_ok(grown, at - 1));
                }
                if self.rule.is_final(s.key.height, key.height, da_finalized) {
                    match self.storage.commit(s.key, s.root) {
                        Ok(()) => {},
                        Err(_) => {
                            return Err(RunnerError::StorageInvariantViolation);
                        },
                    }
                    proof {
                        let now = self.storage@;
                        assert(now.pending == sv.pending.skip(1));
                        assert forall|i: int| 0 <= i < now.pending.len() implies #[trigger] link_ok(
                            now.head().key,
                            now.pending,
                            i,
                        ) by {
                            assert(link_ok(sv.head().key, sv.pending, i + 1));
                        }
                        assert(chain_of(now) =~= grown);
                        let led = self.ledger@;
                        if led.len() > 0 {
                            assert(led.last() == grown[at - 1]);
                            assert(entry_ok(led, led.len() - 1));
                            assert(entry_ok(led, 0));
                        }
                    }
                    match self.ledger.record_commit(s.key.height, s.key.hash, s.root) {
                        Ok(_) => {},
                        Err(_) => {
                            return Err(RunnerError::StorageInvariantViolation);
                        },
                    }
                    commits.push(HeadSlot { height: s.key.height, hash: s.key.hash, root: s.root });
                    proof {
                        assert(commits@ =~= grown.subrange(first_len as int, at + 1));
                        assert(self.ledger@ =~= old_ledger + commits@);
                    }
                } else {
                    more = false;
                }
            }
        }
        proof {
            let n = self.storage@.finalized.len() as int;
            lemma_scan(grown, first_len, self.rule, da_finalized);
            assert(self@.final_len == scan(grown, first_len, self.rule, da_finalized));
            assert(self@.ledger =~= old_ledger + grown.subrange(first_len as int, n));
            assert(self@.ledger =~= grown.subrange(n - self@.ledger.len(), n));
            assert(self@ == old(self)@.after_executed(root, da_finalized));
        }
        Ok(commits)
    }
}

} // verus!
