//! The commit manager: what to ask of the ledger next, and what to do
//! with each answer. The caller asks and waits; the manager decides.

use vstd::prelude::*;
use crate::chain::Block;
use crate::chain::BlockHash;
use crate::index::Index;
use crate::index::IndexView;
use crate::index::Refusal;
use crate::issuance::Schedule;

verus! {

/// Where the manager stands.
#[derive(Copy, Clone, Debug, PartialEq, Eq, Structural)]
pub enum Phase {
    /// No block is committed.
    Idle,
    /// The block at this height is being fetched and indexed.
    Indexing(u64),
    /// The ledger has diverged from the index. The first height is that
    /// of the last block committed, the second the height at which the
    /// index and the ledger are being compared.
    RollingBack(u64, u64),
    /// The block at this height is the last committed.
    Committed(u64),
}

/// Why indexing halts.
#[derive(Copy, Clone, Debug, PartialEq, Eq, Structural)]
pub enum Fatal {
    /// The ledger failed to answer more often in a row than the policy
    /// allows.
    Upstream,
    /// A block is beyond what the index can count.
    Unindexable,
}

/// What the caller is to do next.
#[derive(Copy, Clone, Debug, PartialEq, Eq, Structural)]
pub enum Action {
    /// Ask the ledger for the hash of its block at this height.
    AskHash(u64),
    /// Fetch the block at this height.
    Fetch(u64),
    /// Wait this long, then send a tick.
    Wait(u64),
    /// Stop: the index stays at its last commit.
    Halt(Fatal),
}

/// What the caller reports.
#[derive(Clone, Debug, PartialEq, Eq)]
pub enum Event {
    /// Nothing: the start, or the end of a wait.
    Tick,
    /// The hash of the ledger's block at a height, or that it has none.
    Hash { height: u64, hash: Option<BlockHash> },
    /// The block that was fetched.
    Block(Block),
    /// The ledger has no block at the height asked for yet.
    NotFound,
    /// The ledger did not answer.
    Failed,
}

/// How often to try again, and how long to wait at first.
#[derive(Copy, Clone, Debug, PartialEq, Eq, Structural)]
pub struct Policy {
    pub max_retries: u32,
    pub base_delay: u64,
}

/// The commit manager.
#[derive(Copy, Clone, Debug, PartialEq, Eq, Structural)]
pub struct Manager {
    pub phase: Phase,
    /// How often in a row the ledger has failed to answer.
    pub failures: u32,
    /// How long to wait after the next failure.
    pub delay: u64,
    pub policy: Policy,
}

/// What a step of the manager gives: the manager after it, the index
/// after it, and what the caller is to do.
pub struct Outcome {
    pub manager: Manager,
    pub index: IndexView,
    pub action: Action,
}

/// Twice `delay`, or the longest delay where that is beyond it.
pub open spec fn doubled(delay: u64) -> u64 {
    if 2 * delay <= u64::MAX {
        (2 * delay) as u64
    } else {
        u64::MAX
    }
}

/// Whether the phase fits the index: idle with no block committed; at or
/// rolling back from the height of the last block; indexing the height
/// after it.
pub open spec fn consistent(phase: Phase, view: IndexView) -> bool {
    match phase {
        Phase::Idle => view.hashes.len() == 0,
        Phase::Indexing(height) => view.hashes.len() == height,
        Phase::RollingBack(from, to) => view.hashes.len() == from + 1 && to < from,
        Phase::Committed(height) => view.hashes.len() == height + 1,
    }
}

impl Manager {
    /// The manager with `phase` after the ledger has answered: failures
    /// are forgotten.
    pub open spec fn moved(self, phase: Phase) -> Manager {
        Manager { phase, failures: 0, delay: self.policy.base_delay, policy: self.policy }
    }

    /// What the phase falls back to when a fetch gives nothing: the last
    /// commit.
    pub open spec fn rested(self) -> Phase {
        match self.phase {
            Phase::Indexing(height) => if height == 0 {
                Phase::Idle
            } else {
                Phase::Committed((height - 1) as u64)
            },
            phase => phase,
        }
    }

    /// The request that the phase stands for, asked again.
    pub open spec fn asked_again(self, view: IndexView) -> Outcome {
        match self.phase {
            Phase::Idle => Outcome {
                manager: Manager { phase: Phase::Indexing(0), ..self },
                index: view,
                action: Action::Fetch(0),
            },
            Phase::Indexing(height) => Outcome {
                manager: self,
                index: view,
                action: Action::Fetch(height),
            },
            Phase::RollingBack(from, to) => Outcome {
                manager: self,
                index: view,
                action: Action::AskHash(to),
            },
            Phase::Committed(height) => Outcome {
                manager: self,
                index: view,
                action: Action::AskHash(height),
            },
        }
    }

    /// After a failure of the ledger to answer: wait and double the delay,
    /// or halt where the ledger has failed too often. The phase falls back
    /// to the last commit.
    pub open spec fn retried(self, view: IndexView) -> Outcome {
        if self.failures >= self.policy.max_retries {
            Outcome {
                manager: Manager { phase: self.rested(), ..self },
                index: view,
                action: Action::Halt(Fatal::Upstream),
            }
        } else {
            Outcome {
                manager: Manager {
                    phase: self.rested(),
                    failures: (self.failures + 1) as u32,
                    delay: doubled(self.delay),
                    policy: self.policy,
                },
                index: view,
                action: Action::Wait(self.delay),
            }
        }
    }

    /// After the block at height `stale` of the index is found not to be
    /// the ledger's: compare one height lower; where there is none, undo
    /// every block and start over.
    pub open spec fn diverged(self, view: IndexView, tip: u64, stale: u64) -> Outcome {
        if stale == 0 {
            Outcome {
                manager: self.moved(Phase::Indexing(0)),
                index: view.truncated(0),
                action: Action::Fetch(0),
            }
        } else {
            Outcome {
                manager: self.moved(Phase::RollingBack(tip, (stale - 1) as u64)),
                index: view,
                action: Action::AskHash((stale - 1) as u64),
            }
        }
    }

    /// After the block at height `common` of the index is found to be the
    /// ledger's: undo every block above it and index the next.
    pub open spec fn resumed(self, view: IndexView, common: u64) -> Outcome {
        if common == u64::MAX {
            Outcome { manager: self, index: view, action: Action::Halt(Fatal::Unindexable) }
        } else {
            Outcome {
                manager: self.moved(Phase::Indexing((common + 1) as u64)),
                index: view.truncated(common as nat + 1),
                action: Action::Fetch((common + 1) as u64),
            }
        }
    }

    /// Whether the index holds `hash` at `height`.
    pub open spec fn agrees(view: IndexView, height: u64, hash: Option<BlockHash>) -> bool {
        height < view.hashes.len() && hash == Some(view.hashes[height as int])
    }

    /// What the manager does with a block that was fetched for `height`:
    /// commit it; or, where it does not follow the last commit, treat the
    /// last commit as stale; or halt where it cannot be indexed.
    pub open spec fn committed(self, view: IndexView, schedule: Schedule, height: u64, block: Block)
        -> Outcome {
        match view.refusal(block) {
            None => Outcome {
                manager: self.moved(Phase::Committed(height)),
                index: view.advanced(schedule, block),
                action: Action::AskHash(height),
            },
            Some(Refusal::Unconnected) => if height == 0 {
                Outcome {
                    manager: self.moved(Phase::Indexing(0)),
                    index: view.truncated(0),
                    action: Action::Fetch(0),
                }
            } else {
                self.diverged(view, (height - 1) as u64, (height - 1) as u64)
            },
            Some(Refusal::TooLarge) => Outcome {
                manager: Manager { phase: self.rested(), ..self },
                index: view,
                action: Action::Halt(Fatal::Unindexable),
            },
        }
    }

    /// The step of the manager: from where it stands, what the index
    /// holds and what the caller reports, to where it stands next, what
    /// the index holds then, and what the caller is to do.
    pub open spec fn next(self, view: IndexView, schedule: Schedule, event: Event) -> Outcome {
        match (self.phase, event) {
            (_, Event::Failed) => self.retried(view),
            (Phase::Indexing(height), Event::NotFound) => Outcome {
                manager: self.moved(self.rested()),
                index: view,
                action: Action::Wait(self.policy.base_delay),
            },
            (Phase::Indexing(height), Event::Block(block)) => self.committed(
                view,
                schedule,
                height,
                block,
            ),
            (Phase::Committed(tip), Event::Hash { height, hash }) => if height != tip {
                self.asked_again(view)
            } else if Self::agrees(view, height, hash) {
                self.resumed(view, tip)
            } else {
                self.diverged(view, tip, tip)
            },
            (Phase::RollingBack(from, to), Event::Hash { height, hash }) => if height != to {
                self.asked_again(view)
            } else if Self::agrees(view, height, hash) {
                self.resumed(view, to)
            } else {
                self.diverged(view, from, to)
            },
            _ => self.asked_again(view),
        }
    }

    /// A manager for `index`: idle where it holds no block, at its last
    /// commit where it does.
    pub fn resume(index: &Index, policy: Policy) -> (manager: Manager)
        requires
            index.wf(),
        ensures
            manager.policy == policy,
            manager.failures == 0,
            manager.delay == policy.base_delay,
            manager.phase == match index@.tip() {
                Some(cursor) => Phase::Committed(cursor.height),
                None => Phase::Idle,
            },
            consistent(manager.phase, index@),
    {
        proof {
            index.lemma_wf();
        }
        let phase = match index.tip() {
            Some(cursor) => Phase::Committed(cursor.height),
            None => Phase::Idle,
        };
        Manager { phase, failures: 0, delay: policy.base_delay, policy }
    }

    /// The phase to fall back to when a fetch gives nothing.
    fn rest(&self) -> (phase: Phase)
        ensures
            phase == self.rested(),
    {
        match self.phase {
            Phase::Indexing(height) => if height == 0 {
                Phase::Idle
            } else {
                Phase::Committed(height - 1)
            },
            phase => phase,
        }
    }

    /// Asks again what the phase stands for.
    fn ask_again(&mut self) -> (action: Action)
        ensures
            forall|view: IndexView|
                (Outcome { manager: *final(self), index: view, action }) == #[trigger] old(
                    self,
                ).asked_again(view),
    {
        match self.phase {
            Phase::Idle => {
                self.phase = Phase::Indexing(0);
                Action::Fetch(0)
            },
            Phase::Indexing(height) => Action::Fetch(height),
            Phase::RollingBack(from, to) => Action::AskHash(to),
            Phase::Committed(height) => Action::AskHash(height),
        }
    }

    /// Counts a failure of the ledger to answer.
    fn retry(&mut self) -> (action: Action)
        ensures
            forall|view: IndexView|
                (Outcome { manager: *final(self), index: view, action }) == #[trigger] old(
                    self,
                ).retried(view),
    {
        self.phase = self.rest();
        if self.failures >= self.policy.max_retries {
            Action::Halt(Fatal::Upstream)
        } else {
            let wait = self.delay;
            self.failures = self.failures + 1;
            self.delay = match wait.checked_mul(2) {
                Some(twice) => twice,
                None => u64::MAX,
            };
            Action::Wait(wait)
        }
    }

    /// Moves to `phase` and forgets the failures.
    fn move_to(&mut self, phase: Phase)
        ensures
            *final(self) == old(self).moved(phase),
    {
        self.phase = phase;
        self.failures = 0;
        self.delay = self.policy.base_delay;
    }

    /// Handles a block of the index that is not the ledger's.
    fn diverge(&mut self, index: &mut Index, tip: u64, stale: u64) -> (action: Action)
        requires
            old(index).wf(),
        ensures
            final(index).wf(),
            final(index).schedule() == old(index).schedule(),
            (Outcome { manager: *final(self), index: final(index)@, action }) == old(
                self,
            ).diverged(old(index)@, tip, stale),
    {
        if stale == 0 {
            index.truncate(0);
            self.move_to(Phase::Indexing(0));
            Action::Fetch(0)
        } else {
            self.move_to(Phase::RollingBack(tip, stale - 1));
            Action::AskHash(stale - 1)
        }
    }

    /// Undoes what stands above the last common block and goes on from it.
    fn resume_after(&mut self, index: &mut Index, common: u64) -> (action: Action)
        requires
            old(index).wf(),
        ensures
            final(index).wf(),
            final(index).schedule() == old(index).schedule(),
            (Outcome { manager: *final(self), index: final(index)@, action }) == old(
                self,
            ).resumed(old(index)@, common),
    {
        if common == u64::MAX {
            Action::Halt(Fatal::Unindexable)
        } else {
            index.truncate(common + 1);
            self.move_to(Phase::Indexing(common + 1));
            Action::Fetch(common + 1)
        }
    }

    /// Commits a fetched block, or handles its refusal.
    fn commit(&mut self, index: &mut Index, height: u64, block: &Block) -> (action: Action)
        requires
            old(index).wf(),
        ensures
            final(index).wf(),
            final(index).schedule() == old(index).schedule(),
            (Outcome { manager: *final(self), index: final(index)@, action }) == old(
                self,
            ).committed(old(index)@, old(index).schedule(), height, *block),
    {
        match index.index_block(block) {
            Ok(()) => {
                self.move_to(Phase::Committed(height));
                Action::AskHash(height)
            },
            Err(Refusal::Unconnected) => {
                if height == 0 {
                    index.truncate(0);
                    self.move_to(Phase::Indexing(0));
                    Action::Fetch(0)
                } else {
                    self.diverge(index, height - 1, height - 1)
                }
            },
            Err(Refusal::TooLarge) => {
                self.phase = self.rest();
                Action::Halt(Fatal::Unindexable)
            },
        }
    }

    /// Takes one step: does to the index what the event calls for, and
    /// says what the caller is to do next.
    pub fn step(&mut self, index: &mut Index, event: &Event) -> (action: Action)
        requires
            old(index).wf(),
        ensures
            final(index).wf(),
            final(index).schedule() == old(index).schedule(),
            (Outcome { manager: *final(self), index: final(index)@, action }) == old(self).next(
                old(index)@,
                old(index).schedule(),
                *event,
            ),
    {
        match event {
            Event::Failed => self.retry(),
            Event::NotFound => match self.phase {
                Phase::Indexing(height) => {
                    let phase = self.rest();
                    self.move_to(phase);
                    Action::Wait(self.policy.base_delay)
                },
                _ => self.ask_again(),
            },
            Event::Block(block) => match self.phase {
                Phase::Indexing(height) => self.commit(index, height, block),
                _ => self.ask_again(),
            },
            Event::Hash { height, hash } => {
                let local = index.hash_at(*height);
                let same = match (local, hash) {
                    (Some(ours), Some(theirs)) => ours == *theirs,
                    _ => false,
                };
                match self.phase {
                    Phase::Committed(tip) => {
                        if *height != tip {
                            self.ask_again()
                        } else if same {
                            self.resume_after(index, tip)
                        } else {
                            self.diverge(index, tip, tip)
                        }
                    },
                    Phase::RollingBack(from, to) => {
                        if *height != to {
                            self.ask_again()
                        } else if same {
                            self.resume_after(index, to)
                        } else {
                            self.diverge(index, from, to)
                        }
                    },
                    _ => self.ask_again(),
                }
            },
            Event::Tick => self.ask_again(),
        }
    }
}

/// Every step keeps the phase fitting the index.
pub proof fn lemma_step_keeps_consistent(
    manager: Manager,
    view: IndexView,
    schedule: Schedule,
    event: Event,
)
    requires
        consistent(manager.phase, view),
        view.past.len() == view.hashes.len(),
    ensures
        consistent(
            manager.next(view, schedule, event).manager.phase,
            manager.next(view, schedule, event).index,
        ),
        manager.next(view, schedule, event).index.past.len() == manager.next(
            view,
            schedule,
            event,
        ).index.hashes.len(),
{
}

} // verus!
