//! Laws of inscriptions: content stays bound to its unit.

use vstd::prelude::*;
use crate::chain::Block;
use crate::chain::OutPoint;
use crate::chain::Transaction;
use crate::chain::TxId;
use crate::decoder::instruction_of;
use crate::index::block_effect;
use crate::index::issued_at;
use crate::index::token_block;
use crate::index::IndexView;
use crate::issuance::Schedule;
use crate::ledger::credited;
use crate::ledger::emptied;
use crate::ledger::registered;
use crate::ledger::token_step;
use crate::message::InstructionView;
use crate::store::InscriptionView;
use crate::store::Item;
use crate::store::Key;
use crate::token::Balance;
use crate::token::TokenId;
use crate::unit_index::inscribed;
use crate::unit_index::issuance_pool;
use crate::unit_index::settled;
use crate::unit_index::spent_map;
use crate::unit_index::spent_pool;
use crate::unit_index::unit_block;
use crate::unit_index::unit_step;
use crate::unit_index::unit_steps;
use crate::unit_index::UnitState;
use crate::units::UnitRange;

verus! {

/// The content bound to the unit `unit` in `map`, if any is.
pub open spec fn inscription_on(map: Map<Key, Item>, unit: u64) -> Option<InscriptionView> {
    match map.get(Key::Inscription(unit)) {
        Some(Item::Inscription(inscription)) => Some(inscription),
        _ => None,
    }
}

/// Whether every unit that bears content in `before` bears the same
/// content in `after`.
pub open spec fn keeps_inscriptions(before: Map<Key, Item>, after: Map<Key, Item>) -> bool {
    forall|unit: u64| #[trigger]
        before.contains_key(Key::Inscription(unit)) ==> after.contains_key(
            Key::Inscription(unit),
        ) && after[Key::Inscription(unit)] == before[Key::Inscription(unit)]
}

/// Spending outputs changes no inscription.
proof fn lemma_spent_keeps(map: Map<Key, Item>, inputs: Seq<OutPoint>)
    ensures
        keeps_inscriptions(map, spent_map(map, inputs)),
    decreases inputs.len(),
{
    if inputs.len() > 0 {
        lemma_spent_keeps(map, inputs.drop_last());
    }
}

/// Entering outputs changes no inscription.
proof fn lemma_settled_keeps(
    map: Map<Key, Item>,
    txid: TxId,
    pool: Seq<UnitRange>,
    values: Seq<u64>,
    k: int,
)
    ensures
        keeps_inscriptions(map, settled(map, txid, pool, values, k)),
    decreases k,
{
    if k > 0 {
        lemma_settled_keeps(map, txid, pool, values, k - 1);
    }
}

/// The units of a transaction change no inscription.
proof fn lemma_unit_step_keeps(state: UnitState, tx: Transaction)
    ensures
        keeps_inscriptions(state.map, unit_step(state, tx).map),
{
    let pool = spent_pool(state.map, tx.inputs@);
    let spent = spent_map(state.map, tx.inputs@);
    let bound = inscribed(spent, tx, pool);
    let values = crate::chain::output_values(tx.outputs@);
    lemma_spent_keeps(state.map, tx.inputs@);
    lemma_settled_keeps(bound, tx.txid, pool, values, values.len() as int);
    assert(keeps_inscriptions(spent, bound));
}

/// The units of the transactions of a block change no inscription.
proof fn lemma_unit_steps_keep(state: UnitState, txs: Seq<Transaction>, n: int)
    ensures
        keeps_inscriptions(state.map, unit_steps(state, txs, n).map),
    decreases n,
{
    if n > 1 {
        lemma_unit_steps_keep(state, txs, n - 1);
        lemma_unit_step_keeps(unit_steps(state, txs, n - 1), txs[n - 1]);
    }
}

/// Taking balances out changes no inscription.
proof fn lemma_emptied_keeps(map: Map<Key, Item>, inputs: Seq<OutPoint>)
    ensures
        keeps_inscriptions(map, emptied(map, inputs)),
    decreases inputs.len(),
{
    if inputs.len() > 0 {
        lemma_emptied_keeps(map, inputs.drop_last());
    }
}

/// Entering balances changes no inscription.
proof fn lemma_credited_keeps(
    map: Map<Key, Item>,
    txid: TxId,
    outputs: Seq<Seq<Balance>>,
    k: int,
)
    ensures
        keeps_inscriptions(map, credited(map, txid, outputs, k)),
    decreases k,
{
    if k > 0 {
        lemma_credited_keeps(map, txid, outputs, k - 1);
    }
}

/// The tokens of a transaction change no inscription.
proof fn lemma_token_step_keeps(
    map: Map<Key, Item>,
    id: TokenId,
    tx: Transaction,
    instruction: InstructionView,
)
    ensures
        keeps_inscriptions(map, token_step(map, id, tx, instruction)),
{
    let spent = emptied(map, tx.inputs@);
    let named = registered(spent, id, tx.txid, instruction);
    lemma_emptied_keeps(map, tx.inputs@);
    assert(keeps_inscriptions(spent, named));
    lemma_credited_keeps(
        named,
        tx.txid,
        crate::allocation::allocated(
            crate::ledger::available(
                crate::ledger::freed(map, tx.inputs@),
                spent,
                id.height,
                instruction,
            ),
            instruction.edicts(),
            crate::ledger::eligible_outputs(tx.outputs@),
        ),
        tx.outputs@.len() as int,
    );
}

/// The tokens of a block change no inscription.
proof fn lemma_token_block_keeps(map: Map<Key, Item>, height: u64, txs: Seq<Transaction>, n: int)
    ensures
        keeps_inscriptions(map, token_block(map, height, txs, n)),
    decreases n,
{
    if n > 0 {
        lemma_token_block_keeps(map, height, txs, n - 1);
        let id = TokenId { height, tx: (n - 1) as u32 };
        lemma_token_step_keeps(
            token_block(map, height, txs, n - 1),
            id,
            txs[n - 1],
            instruction_of(txs[n - 1], id),
        );
    }
}

/// A block changes no inscription: the content that a unit bears before
/// the block, it bears after it.
pub proof fn lemma_block_keeps_inscriptions(
    map: Map<Key, Item>,
    schedule: Schedule,
    height: u64,
    txs: Seq<Transaction>,
)
    ensures
        keeps_inscriptions(map, block_effect(map, schedule, height, txs)),
{
    let issued = issued_at(schedule, height as nat);
    let start = UnitState { map, fees: Seq::<UnitRange>::empty() };
    let before = unit_steps(start, txs, txs.len() as int);
    lemma_unit_steps_keep(start, txs, txs.len() as int);
    let units = unit_block(map, txs, issued).map;
    if txs.len() > 0 {
        let pool = issuance_pool(issued, before.fees);
        let bound = inscribed(before.map, txs[0], pool);
        let values = crate::chain::output_values(txs[0].outputs@);
        lemma_settled_keeps(bound, txs[0].txid, pool, values, values.len() as int);
        assert(keeps_inscriptions(before.map, bound));
    }
    assert(keeps_inscriptions(map, units));
    lemma_token_block_keeps(units, height, txs, txs.len() as int);
}

/// The content bound to a unit never changes, however many blocks
/// follow.
pub proof fn lemma_inscriptions_last(view: IndexView, schedule: Schedule, blocks: Seq<Block>)
    ensures
        keeps_inscriptions(view.map, view.advanced_by(schedule, blocks).map),
    decreases blocks.len(),
{
    if blocks.len() > 0 {
        lemma_inscriptions_last(view, schedule, blocks.drop_last());
        let before = view.advanced_by(schedule, blocks.drop_last());
        lemma_block_keeps_inscriptions(
            before.map,
            schedule,
            before.hashes.len() as u64,
            blocks.last().transactions@,
        );
    }
}

} // verus!
