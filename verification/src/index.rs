//! The index: the store, and for each block what it changed, so that a
//! block is committed whole and can be undone.

use vstd::prelude::*;
use crate::chain::Block;
use crate::chain::BlockHash;
use crate::chain::OutPoint;
use crate::chain::Transaction;
use crate::chain::TxId;
use crate::decoder::instruction_of;
use crate::decoder::read_instruction;
use crate::issuance::Schedule;
use crate::ledger::credited;
use crate::ledger::emptied;
use crate::ledger::index_transaction_tokens;
use crate::ledger::registered;
use crate::ledger::token_step;
use crate::message::InstructionView;
use crate::store::reverted;
use crate::store::undo;
use crate::store::Change;
use crate::store::Item;
use crate::store::Key;
use crate::store::Store;
use crate::token::Balance;
use crate::token::TokenId;
use crate::unit_index::all_indexable;
use crate::unit_index::index_block_units;
use crate::unit_index::indexable;
use crate::unit_index::unit_block;
use crate::unit_unique::lemma_block_keeps_units_unique;
use crate::unit_unique::lemma_sub_ranges;
use crate::unit_unique::limit_after;
use crate::unit_unique::map_below;
use crate::unit_unique::ranges_at;
use crate::unit_unique::sub_ranges;
use crate::unit_unique::units_unique;
use crate::units::UnitRange;

verus! {

/// Why the index refuses a block.
#[derive(Copy, Clone, Debug, PartialEq, Eq, Structural)]
pub enum Refusal {
    /// The block does not follow the last block committed.
    Unconnected,
    /// The block has more transactions, or a transaction more outputs,
    /// than 32 bits count, or the height is beyond 64 bits.
    TooLarge,
}

/// The last block committed.
#[derive(Copy, Clone, Debug, PartialEq, Eq, Structural)]
pub struct Cursor {
    pub height: u64,
    pub hash: BlockHash,
}

/// What the index keeps of a committed block.
pub struct Commit {
    pub hash: BlockHash,
    pub changes: Vec<Change>,
}

/// The index as a mathematical value.
pub struct IndexView {
    /// What the store holds.
    pub map: Map<Key, Item>,
    /// The hashes of the blocks committed, by height.
    pub hashes: Seq<BlockHash>,
    /// What the store held before each of those blocks.
    pub past: Seq<Map<Key, Item>>,
}

/// The units that the block at `height` issues.
pub open spec fn issued_at(schedule: Schedule, height: nat) -> UnitRange {
    UnitRange {
        start: schedule.first_unit(height) as u64,
        end: schedule.first_unit(height + 1) as u64,
    }
}

/// What the first `n` transactions of the block at `height` do to the
/// token ledger, one after the other.
pub open spec fn token_block(map: Map<Key, Item>, height: u64, txs: Seq<Transaction>, n: int)
    -> Map<Key, Item>
    decreases n,
{
    if n <= 0 {
        map
    } else {
        let id = TokenId { height, tx: (n - 1) as u32 };
        token_step(
            token_block(map, height, txs, n - 1),
            id,
            txs[n - 1],
            instruction_of(txs[n - 1], id),
        )
    }
}

/// What the block at `height` does to the store: to the units first, then
/// to the tokens.
pub open spec fn block_effect(
    map: Map<Key, Item>,
    schedule: Schedule,
    height: u64,
    txs: Seq<Transaction>,
) -> Map<Key, Item> {
    token_block(
        unit_block(map, txs, issued_at(schedule, height as nat)).map,
        height,
        txs,
        txs.len() as int,
    )
}

impl IndexView {
    /// The last block committed, if any.
    pub open spec fn tip(self) -> Option<Cursor> {
        if self.hashes.len() == 0 {
            None
        } else {
            Some((Cursor { height: (self.hashes.len() - 1) as u64, hash: self.hashes.last() }))
        }
    }

    /// Whether the index takes `block` as its next: it follows the last
    /// block committed, and its size is within what can be counted.
    pub open spec fn accepts(self, block: Block) -> bool {
        self.refusal(block) is None
    }

    /// Why the index refuses `block`, if it does.
    pub open spec fn refusal(self, block: Block) -> Option<Refusal> {
        if self.hashes.len() > 0 && block.parent != self.hashes.last() {
            Some(Refusal::Unconnected)
        } else if self.hashes.len() >= u64::MAX || block.transactions@.len() > u32::MAX
            || !all_indexable(block.transactions@) {
            Some(Refusal::TooLarge)
        } else {
            None
        }
    }

    /// The index with `block` committed.
    pub open spec fn advanced(self, schedule: Schedule, block: Block) -> IndexView {
        IndexView {
            map: block_effect(
                self.map,
                schedule,
                self.hashes.len() as u64,
                block.transactions@,
            ),
            hashes: self.hashes.push(block.hash),
            past: self.past.push(self.map),
        }
    }

    /// The index with every block after the first `count` undone.
    pub open spec fn truncated(self, count: nat) -> IndexView {
        if count >= self.hashes.len() || count >= self.past.len() {
            self
        } else {
            IndexView {
                map: self.past[count as int],
                hashes: self.hashes.take(count as int),
                past: self.past.take(count as int),
            }
        }
    }

    /// The index with the blocks of `blocks` committed, in order.
    pub open spec fn advanced_by(self, schedule: Schedule, blocks: Seq<Block>) -> IndexView
        decreases blocks.len(),
    {
        if blocks.len() == 0 {
            self
        } else {
            self.advanced_by(schedule, blocks.drop_last()).advanced(schedule, blocks.last())
        }
    }
}

/// Committing blocks adds to the record of the index and leaves what was
/// recorded as it was.
pub proof fn lemma_advanced_by_keeps_record(
    view: IndexView,
    schedule: Schedule,
    blocks: Seq<Block>,
)
    requires
        view.past.len() == view.hashes.len(),
    ensures
        view.advanced_by(schedule, blocks).hashes.len() == view.hashes.len() + blocks.len(),
        view.advanced_by(schedule, blocks).past.len() == view.hashes.len() + blocks.len(),
        view.advanced_by(schedule, blocks).hashes.take(view.hashes.len() as int) == view.hashes,
        view.advanced_by(schedule, blocks).past.take(view.past.len() as int) == view.past,
        blocks.len() > 0 ==> view.advanced_by(schedule, blocks).past[view.past.len() as int]
            == view.map,
    decreases blocks.len(),
{
    let after = view.advanced_by(schedule, blocks);
    if blocks.len() == 0 {
        assert(view.hashes.take(view.hashes.len() as int) =~= view.hashes);
        assert(view.past.take(view.past.len() as int) =~= view.past);
    } else {
        let before = view.advanced_by(schedule, blocks.drop_last());
        lemma_advanced_by_keeps_record(view, schedule, blocks.drop_last());
        assert(after.hashes.take(view.hashes.len() as int) =~= before.hashes.take(
            view.hashes.len() as int,
        ));
        assert(after.past.take(view.past.len() as int) =~= before.past.take(
            view.past.len() as int,
        ));
    }
}

/// Rolling back is the exact inverse of indexing: where any number of
/// blocks are committed on top of an index and the index is then rolled
/// back to where it was, it is what it was: the store holds what it held,
/// and the record of blocks is the same.
pub proof fn lemma_rollback_restores(view: IndexView, schedule: Schedule, blocks: Seq<Block>)
    requires
        view.past.len() == view.hashes.len(),
    ensures
        view.advanced_by(schedule, blocks).truncated(view.hashes.len()) == view,
{
    lemma_advanced_by_keeps_record(view, schedule, blocks);
}

/// What keys hold of ranges does not grow when a transaction's tokens are
/// indexed.
pub proof fn lemma_token_step_keeps_ranges(
    map: Map<Key, Item>,
    id: TokenId,
    tx: Transaction,
    instruction: InstructionView,
)
    ensures
        sub_ranges(token_step(map, id, tx, instruction), map),
{
    let spent = emptied(map, tx.inputs@);
    lemma_emptied_keeps_ranges(map, tx.inputs@);
    let named = registered(spent, id, tx.txid, instruction);
    assert(sub_ranges(named, spent)) by {
        assert forall|key: Key| (#[trigger] ranges_at(named, key)).len() > 0 implies ranges_at(
            named,
            key,
        ) == ranges_at(spent, key) by {}
    }
    let after = token_step(map, id, tx, instruction);
    lemma_credited_keeps_ranges(
        named,
        tx.txid,
        crate::allocation::allocated(
            crate::ledger::available(
                crate::ledger::freed(map, tx.inputs@),
                spent,
                id.height,
                instruction,
            ),
            instruction.edicts(),
            crate::ledger::eligible_outputs(tx.outputs@),
        ),
        tx.outputs@.len() as int,
    );
    assert forall|key: Key| (#[trigger] ranges_at(after, key)).len() > 0 implies ranges_at(
        after,
        key,
    ) == ranges_at(map, key) by {
        assert(ranges_at(after, key) == ranges_at(named, key));
        assert(ranges_at(named, key) == ranges_at(spent, key));
    }
}

/// What keys hold of ranges does not grow when balances are taken out.
pub proof fn lemma_emptied_keeps_ranges(map: Map<Key, Item>, inputs: Seq<OutPoint>)
    ensures
        sub_ranges(emptied(map, inputs), map),
    decreases inputs.len(),
{
    if inputs.len() > 0 {
        lemma_emptied_keeps_ranges(map, inputs.drop_last());
        let mid = emptied(map, inputs.drop_last());
        let after = emptied(map, inputs);
        assert forall|key: Key| (#[trigger] ranges_at(after, key)).len() > 0 implies ranges_at(
            after,
            key,
        ) == ranges_at(map, key) by {
            assert(ranges_at(after, key) == ranges_at(mid, key));
        }
    }
}

/// What keys hold of ranges does not grow when balances are entered.
pub proof fn lemma_credited_keeps_ranges(
    map: Map<Key, Item>,
    txid: TxId,
    outputs: Seq<Seq<Balance>>,
    k: int,
)
    ensures
        sub_ranges(credited(map, txid, outputs, k), map),
    decreases k,
{
    if k > 0 {
        lemma_credited_keeps_ranges(map, txid, outputs, k - 1);
        let mid = credited(map, txid, outputs, k - 1);
        let after = credited(map, txid, outputs, k);
        assert forall|key: Key| (#[trigger] ranges_at(after, key)).len() > 0 implies ranges_at(
            after,
            key,
        ) == ranges_at(map, key) by {
            assert(ranges_at(after, key) == ranges_at(mid, key));
        }
    }
}

/// What keys hold of ranges does not grow when the tokens of a block are
/// indexed.
pub proof fn lemma_token_block_keeps_ranges(
    map: Map<Key, Item>,
    height: u64,
    txs: Seq<Transaction>,
    n: int,
)
    ensures
        sub_ranges(token_block(map, height, txs, n), map),
    decreases n,
{
    if n > 0 {
        lemma_token_block_keeps_ranges(map, height, txs, n - 1);
        let mid = token_block(map, height, txs, n - 1);
        let id = TokenId { height, tx: (n - 1) as u32 };
        lemma_token_step_keeps_ranges(mid, id, txs[n - 1], instruction_of(txs[n - 1], id));
        let after = token_block(map, height, txs, n);
        assert forall|key: Key| (#[trigger] ranges_at(after, key)).len() > 0 implies ranges_at(
            after,
            key,
        ) == ranges_at(map, key) by {
            assert(ranges_at(after, key) == ranges_at(mid, key));
        }
    }
}

/// A block keeps every unit held once, and below the first unit that the
/// next block issues.
pub proof fn lemma_block_keeps_units(
    map: Map<Key, Item>,
    schedule: Schedule,
    height: u64,
    txs: Seq<Transaction>,
)
    requires
        units_unique(map),
        map_below(map, schedule.first_unit(height as nat)),
        schedule.first_unit(height as nat + 1) <= u64::MAX,
    ensures
        units_unique(block_effect(map, schedule, height, txs)),
        map_below(block_effect(map, schedule, height, txs), schedule.first_unit(height as nat + 1)),
{
    let issued = issued_at(schedule, height as nat);
    assert(schedule.first_unit(height as nat + 1) == schedule.first_unit(height as nat)
        + schedule.subsidy_at(height as nat));
    lemma_block_keeps_units_unique(map, txs, issued);
    let mid = unit_block(map, txs, issued).map;
    lemma_token_block_keeps_ranges(mid, height, txs, txs.len() as int);
    lemma_sub_ranges(block_effect(map, schedule, height, txs), mid);
    assert(limit_after(issued) == schedule.first_unit(height as nat + 1));
    assert(map_below(mid, schedule.first_unit(height as nat + 1)));
}

/// Indexes the tokens of the block at `height`.
pub fn index_block_tokens(
    store: &mut Store,
    log: &mut Vec<Change>,
    height: u64,
    txs: &Vec<Transaction>,
)
    requires
        old(store).wf(),
        txs@.len() <= u32::MAX,
        all_indexable(txs@),
    ensures
        final(store).wf(),
        final(store)@ == token_block(old(store)@, height, txs@, txs@.len() as int),
        reverted(final(store)@, final(log)@) == reverted(old(store)@, old(log)@),
{
    let mut i: usize = 0;
    while i < txs.len()
        invariant
            i <= txs@.len(),
            txs@.len() <= u32::MAX,
            all_indexable(txs@),
            store.wf(),
            store@ == token_block(old(store)@, height, txs@, i as int),
            reverted(store@, log@) == reverted(old(store)@, old(log)@),
        decreases txs@.len() - i,
    {
        let id = TokenId { height, tx: i as u32 };
        assert(indexable(txs@[i as int]));
        let instruction = read_instruction(&txs[i], id);
        index_transaction_tokens(store, log, id, &txs[i], &instruction);
        i += 1;
    }
}

/// Whether every transaction has few enough outputs for each to have an
/// index.
pub fn check_indexable(txs: &Vec<Transaction>) -> (fine: bool)
    ensures
        fine == all_indexable(txs@),
{
    let mut i: usize = 0;
    while i < txs.len()
        invariant
            i <= txs@.len(),
            forall|j: int| 0 <= j < i ==> indexable(#[trigger] txs@[j]),
        decreases txs@.len() - i,
    {
        if txs[i].outputs.len() > u32::MAX as usize {
            assert(!indexable(txs@[i as int]));
            return false;
        }
        i += 1;
    }
    true
}

/// The index of a ledger.
pub struct Index {
    schedule: Schedule,
    store: Store,
    commits: Vec<Commit>,
    past: Ghost<Seq<Map<Key, Item>>>,
}

impl View for Index {
    type V = IndexView;

    closed spec fn view(&self) -> IndexView {
        IndexView {
            map: self.store@,
            hashes: Seq::new(self.commits@.len(), |i: int| self.commits@[i].hash),
            past: self.past@,
        }
    }
}

impl Index {
    /// The issuance that the index goes by.
    pub closed spec fn schedule(&self) -> Schedule {
        self.schedule
    }

    /// What the store holds after the block at height `i`.
    pub closed spec fn after(&self, i: int) -> Map<Key, Item> {
        if i + 1 < self.past@.len() {
            self.past@[i + 1]
        } else {
            self.store@
        }
    }

    /// The index is sound: for every block committed it holds the changes
    /// that lead back to what the store held before; no unit is held
    /// twice; and the units held are below the first unit not yet issued.
    pub closed spec fn wf(&self) -> bool {
        &&& self.schedule.valid()
        &&& self.store.wf()
        &&& self.past@.len() == self.commits@.len()
        &&& self.commits@.len() <= u64::MAX
        &&& forall|i: int|
            0 <= i < self.commits@.len() ==> reverted(
                self.after(i),
                (#[trigger] self.commits@[i]).changes@,
            ) == self.past@[i]
        &&& forall|i: int|
            0 <= i < self.past@.len() ==> units_unique(#[trigger] self.past@[i]) && map_below(
                self.past@[i],
                self.schedule.first_unit(i as nat),
            )
        &&& units_unique(self.store@)
        &&& map_below(self.store@, self.schedule.first_unit(self.commits@.len()))
    }

    /// What holds of every sound index, for all to see.
    pub proof fn lemma_wf(&self)
        requires
            self.wf(),
        ensures
            self.schedule().valid(),
            self@.past.len() == self@.hashes.len(),
            self@.hashes.len() <= u64::MAX,
            units_unique(self@.map),
            map_below(self@.map, self.schedule().first_unit(self@.hashes.len())),
    {
    }

    /// An index without blocks.
    pub fn new(schedule: Schedule) -> (index: Index)
        requires
            schedule.valid(),
        ensures
            index.wf(),
            index.schedule() == schedule,
            index@.map == Map::<Key, Item>::empty(),
            index@.hashes == Seq::<BlockHash>::empty(),
            index@.past == Seq::<Map<Key, Item>>::empty(),
    {
        let index = Index {
            schedule,
            store: Store::new(),
            commits: Vec::new(),
            past: Ghost(Seq::empty()),
        };
        assert(index@.hashes =~= Seq::<BlockHash>::empty());
        index
    }

    /// The store of the index, to read.
    pub fn store(&self) -> (store: &Store)
        requires
            self.wf(),
        ensures
            store.wf(),
            store@ == self@.map,
    {
        &self.store
    }

    /// The last block committed, if any.
    pub fn tip(&self) -> (tip: Option<Cursor>)
        requires
            self.wf(),
        ensures
            tip == self@.tip(),
    {
        let count = self.commits.len();
        if count == 0 {
            None
        } else {
            Some(Cursor { height: (count - 1) as u64, hash: self.commits[count - 1].hash })
        }
    }

    /// The hash of the block committed at `height`, if there is one.
    pub fn hash_at(&self, height: u64) -> (hash: Option<BlockHash>)
        requires
            self.wf(),
        ensures
            hash == if height < self@.hashes.len() {
                Some(self@.hashes[height as int])
            } else {
                None
            },
    {
        if height < self.commits.len() as u64 {
            Some(self.commits[height as usize].hash)
        } else {
            None
        }
    }

    /// Why the index refuses `block` as its next, if it does.
    pub fn check(&self, block: &Block) -> (refusal: Option<Refusal>)
        requires
            self.wf(),
        ensures
            refusal == self@.refusal(*block),
    {
        let count = self.commits.len();
        if count > 0 && !(block.parent == self.commits[count - 1].hash) {
            return Some(Refusal::Unconnected);
        }
        if count as u64 >= u64::MAX || block.transactions.len() > u32::MAX as usize
            || !check_indexable(&block.transactions) {
            return Some(Refusal::TooLarge);
        }
        None
    }

    /// Commits `block` as the next block: all that it changes, or, where
    /// the index refuses it, nothing.
    pub fn index_block(&mut self, block: &Block) -> (result: Result<(), Refusal>)
        requires
            old(self).wf(),
        ensures
            final(self).wf(),
            final(self).schedule() == old(self).schedule(),
            match result {
                Ok(()) => old(self)@.accepts(*block) && final(self)@ == old(self)@.advanced(
                    old(self).schedule(),
                    *block,
                ),
                Err(refusal) => old(self)@.refusal(*block) == Some(refusal) && final(self)@ == old(
                    self,
                )@,
            },
    {
        match self.check(block) {
            Some(refusal) => {
                return Err(refusal);
            },
            None => {},
        }
        let height = self.commits.len() as u64;
        let issued = self.schedule.issued(height);
        let ghost before = self.store@;
        let ghost was = *self;
        let mut log: Vec<Change> = Vec::new();
        index_block_units(&mut self.store, &mut log, &block.transactions, issued);
        index_block_tokens(&mut self.store, &mut log, height, &block.transactions);
        proof {
            assert(issued == issued_at(self.schedule, height as nat));
            assert(self.store@ == block_effect(
                before,
                self.schedule,
                height,
                block.transactions@,
            ));
            lemma_block_keeps_units(before, self.schedule, height, block.transactions@);
            self.past@ = self.past@.push(before);
        }
        self.commits.push(Commit { hash: block.hash, changes: log });
        proof {
            assert(self@.hashes =~= was@.hashes.push(block.hash));
            assert forall|i: int| 0 <= i < self.commits@.len() implies reverted(
                self.after(i),
                (#[trigger] self.commits@[i]).changes@,
            ) == self.past@[i] by {
                if i < was.commits@.len() {
                    assert(self.commits@[i] == was.commits@[i]);
                    assert(self.after(i) == was.after(i));
                    assert(self.past@[i] == was.past@[i]);
                }
            }
            assert forall|i: int| 0 <= i < self.past@.len() implies units_unique(
                #[trigger] self.past@[i],
            ) && map_below(self.past@[i], self.schedule.first_unit(i as nat)) by {
                if i < was.past@.len() {
                    assert(self.past@[i] == was.past@[i]);
                }
            }
        }
        Ok(())
    }

    /// Undoes the last block committed. Returns whether there was one.
    pub fn rollback(&mut self) -> (undone: bool)
        requires
            old(self).wf(),
        ensures
            final(self).wf(),
            final(self).schedule() == old(self).schedule(),
            undone == (old(self)@.hashes.len() > 0),
            undone ==> final(self)@ == old(self)@.truncated((old(self)@.hashes.len() - 1) as nat),
            !undone ==> final(self)@ == old(self)@,
    {
        let ghost was = *self;
        match self.commits.pop() {
            None => false,
            Some(commit) => {
                let ghost count = self.commits@.len() as int;
                assert(commit == was.commits@[count]);
                assert(was.after(count) == was.store@);
                undo(&mut self.store, commit.changes);
                proof {
                    self.past@ = self.past@.drop_last();
                    assert(self.store@ == was.past@[count]);
                    assert(self@.hashes =~= was@.hashes.take(count));
                    assert(self@.past =~= was@.past.take(count));
                    assert forall|i: int| 0 <= i < self.commits@.len() implies reverted(
                        self.after(i),
                        (#[trigger] self.commits@[i]).changes@,
                    ) == self.past@[i] by {
                        assert(self.commits@[i] == was.commits@[i]);
                        assert(self.after(i) == was.after(i));
                        assert(self.past@[i] == was.past@[i]);
                    }
                    assert forall|i: int| 0 <= i < self.past@.len() implies units_unique(
                        #[trigger] self.past@[i],
                    ) && map_below(self.past@[i], self.schedule.first_unit(i as nat)) by {
                        assert(self.past@[i] == was.past@[i]);
                    }
                    assert(units_unique(was.past@[count]));
                }
                true
            },
        }
    }

    /// Undoes every block but the first `count`.
    pub fn truncate(&mut self, count: u64)
        requires
            old(self).wf(),
        ensures
            final(self).wf(),
            final(self).schedule() == old(self).schedule(),
            final(self)@ == old(self)@.truncated(count as nat),
    {
        proof {
            self.lemma_wf();
        }
        while self.commits.len() as u64 > count
            invariant
                self.wf(),
                self.schedule() == old(self).schedule(),
                self@.past.len() == self@.hashes.len(),
                self@.hashes.len() == self.commits@.len(),
                old(self)@.past.len() == old(self)@.hashes.len(),
                self@.truncated(count as nat) == old(self)@.truncated(count as nat),
            decreases self.commits@.len(),
        {
            let ghost before = self@;
            self.rollback();
            proof {
                self.lemma_wf();
                let fewer = (before.hashes.len() - 1) as nat;
                let keep = count as nat;
                assert(keep <= fewer);
                if keep < fewer {
                    assert(self@.truncated(keep).hashes =~= before.truncated(keep).hashes);
                    assert(self@.truncated(keep).past =~= before.truncated(keep).past);
                }
            }
        }
    }

    /// Undoes every block above `height`, so that the block at `height` is
    /// the last committed.
    pub fn rollback_to(&mut self, height: u64)
        requires
            old(self).wf(),
        ensures
            final(self).wf(),
            final(self).schedule() == old(self).schedule(),
            final(self)@ == old(self)@.truncated(height as nat + 1),
    {
        proof {
            self.lemma_wf();
        }
        if height < u64::MAX {
            self.truncate(height + 1);
        }
    }
}

} // verus!
