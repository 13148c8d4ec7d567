//! What a block does to the unit ranges that unspent outputs hold.

use vstd::prelude::*;
use std::collections::VecDeque;
use crate::chain::output_values;
use crate::chain::values_of;
use crate::chain::Block;
use crate::chain::OutPoint;
use crate::chain::Transaction;
use crate::chain::TxId;
use crate::envelope::content_of;
use crate::envelope::read_envelope;
use crate::store::Inscription;
use crate::store::InscriptionView;
use crate::store::copy_ranges;
use crate::store::record;
use crate::store::reverted;
use crate::store::Change;
use crate::store::Item;
use crate::store::Key;
use crate::store::Store;
use crate::store::Value;
use crate::units::assigned;
use crate::units::propagate;
use crate::units::unassigned;
use crate::units::UnitRange;

verus! {

/// The ranges that the output `outpoint` holds in `map`; none where it is
/// unknown or spent.
pub open spec fn held(map: Map<Key, Item>, outpoint: OutPoint) -> Seq<UnitRange> {
    match map.get(Key::Output(outpoint)) {
        Some(Item::Ranges(ranges)) => ranges,
        _ => Seq::empty(),
    }
}

/// `map` once the outputs in `inputs` are spent.
pub open spec fn spent_map(map: Map<Key, Item>, inputs: Seq<OutPoint>) -> Map<Key, Item>
    decreases inputs.len(),
{
    if inputs.len() == 0 {
        map
    } else {
        spent_map(map, inputs.drop_last()).remove(Key::Output(inputs.last()))
    }
}

/// The ranges that spending the outputs in `inputs` frees, in the order of
/// the inputs. An output named twice counts once, where it is named first.
pub open spec fn spent_pool(map: Map<Key, Item>, inputs: Seq<OutPoint>) -> Seq<UnitRange>
    decreases inputs.len(),
{
    if inputs.len() == 0 {
        Seq::empty()
    } else {
        spent_pool(map, inputs.drop_last()) + held(
            spent_map(map, inputs.drop_last()),
            inputs.last(),
        )
    }
}

/// `map` with the first `k` outputs of transaction `txid` entered, each
/// with the ranges that it takes from `pool`.
pub open spec fn settled(
    map: Map<Key, Item>,
    txid: TxId,
    pool: Seq<UnitRange>,
    values: Seq<u64>,
    k: int,
) -> Map<Key, Item>
    decreases k,
{
    if k <= 0 {
        map
    } else {
        settled(map, txid, pool, values, k - 1).insert(
            Key::Output(OutPoint { txid, index: (k - 1) as u32 }),
            Item::Ranges(assigned(pool, values, k - 1)),
        )
    }
}

/// The first unit of `pool`, where its first range holds one.
pub open spec fn first_unit_of(pool: Seq<UnitRange>) -> Option<u64> {
    if pool.len() > 0 && pool[0].start < pool[0].end {
        Some(pool[0].start)
    } else {
        None
    }
}

/// `map` with the content that `tx` reveals bound to the first unit that
/// the transaction spends. Nothing is bound where the transaction wraps no
/// content or spends no unit, and nothing where the unit bears content
/// already.
pub open spec fn inscribed(map: Map<Key, Item>, tx: Transaction, pool: Seq<UnitRange>) -> Map<
    Key,
    Item,
> {
    match (content_of(tx.witness@), first_unit_of(pool)) {
        (Some(content), Some(unit)) => if map.contains_key(Key::Inscription(unit)) {
            map
        } else {
            map.insert(
                Key::Inscription(unit),
                Item::Inscription(
                    InscriptionView {
                        id: tx.txid,
                        content_type: content.content_type,
                        body: content.body,
                    },
                ),
            )
        },
        _ => map,
    }
}

/// The unit state while a block is indexed: the store, and the fees that
/// the transactions so far have left.
pub struct UnitState {
    pub map: Map<Key, Item>,
    pub fees: Seq<UnitRange>,
}

/// What a transaction other than the issuance transaction does: it spends
/// its inputs, the content it reveals is bound to the first unit they
/// held, its outputs take their units from the front of what the inputs
/// held, and what is left joins the fees.
pub open spec fn unit_step(state: UnitState, tx: Transaction) -> UnitState {
    let pool = spent_pool(state.map, tx.inputs@);
    let values = output_values(tx.outputs@);
    UnitState {
        map: settled(
            inscribed(spent_map(state.map, tx.inputs@), tx, pool),
            tx.txid,
            pool,
            values,
            values.len() as int,
        ),
        fees: state.fees + unassigned(pool, values),
    }
}

/// The state after the transactions of a block before index `n`, but for
/// the issuance transaction at index 0.
pub open spec fn unit_steps(state: UnitState, txs: Seq<Transaction>, n: int) -> UnitState
    decreases n,
{
    if n <= 1 {
        state
    } else {
        unit_step(unit_steps(state, txs, n - 1), txs[n - 1])
    }
}

/// What the issuance transaction has to hand out: the new units, then the
/// fees in the order of the transactions that left them.
pub open spec fn issuance_pool(issued: UnitRange, fees: Seq<UnitRange>) -> Seq<UnitRange> {
    if issued.start < issued.end {
        seq![issued] + fees
    } else {
        fees
    }
}

/// What a block does to the units: every other transaction first, in
/// order, then the issuance transaction, which hands out the new units and
/// the fees. `fees` of the result are the units that it left unclaimed.
pub open spec fn unit_block(map: Map<Key, Item>, txs: Seq<Transaction>, issued: UnitRange)
    -> UnitState {
    let before = unit_steps(UnitState { map, fees: Seq::empty() }, txs, txs.len() as int);
    let pool = issuance_pool(issued, before.fees);
    if txs.len() == 0 {
        UnitState { map, fees: pool }
    } else {
        let values = output_values(txs[0].outputs@);
        UnitState {
            map: settled(
                inscribed(before.map, txs[0], pool),
                txs[0].txid,
                pool,
                values,
                values.len() as int,
            ),
            fees: unassigned(pool, values),
        }
    }
}

/// Whether `tx` has few enough outputs for each to have an index.
pub open spec fn indexable(tx: Transaction) -> bool {
    tx.outputs@.len() <= u32::MAX
}

/// Whether every transaction of `txs` is indexable.
pub open spec fn all_indexable(txs: Seq<Transaction>) -> bool {
    forall|i: int| 0 <= i < txs.len() ==> indexable(#[trigger] txs[i])
}

/// Spends the outputs in `inputs` and gathers the ranges they held.
pub fn gather(store: &mut Store, log: &mut Vec<Change>, inputs: &Vec<OutPoint>) -> (pool: VecDeque<
    UnitRange,
>)
    requires
        old(store).wf(),
    ensures
        final(store).wf(),
        final(store)@ == spent_map(old(store)@, inputs@),
        pool@ == spent_pool(old(store)@, inputs@),
        reverted(final(store)@, final(log)@) == reverted(old(store)@, old(log)@),
{
    let mut pool: VecDeque<UnitRange> = VecDeque::new();
    let mut i: usize = 0;
    while i < inputs.len()
        invariant
            i <= inputs@.len(),
            store.wf(),
            store@ == spent_map(old(store)@, inputs@.take(i as int)),
            pool@ == spent_pool(old(store)@, inputs@.take(i as int)),
            reverted(store@, log@) == reverted(old(store)@, old(log)@),
        decreases inputs@.len() - i,
    {
        let ghost map = store@;
        let ghost had = pool@;
        assert(inputs@.take(i + 1).drop_last() =~= inputs@.take(i as int));
        let key = Key::Output(inputs[i]);
        if store.get(&key).is_some() {
            let before = record(store, log, key, None);
            match before {
                Some(Value::Ranges(ranges)) => {
                    let mut j: usize = 0;
                    while j < ranges.len()
                        invariant
                            j <= ranges@.len(),
                            pool@ == had + ranges@.take(j as int),
                        decreases ranges@.len() - j,
                    {
                        pool.push_back(ranges[j]);
                        j += 1;
                        assert(pool@ =~= had + ranges@.take(j as int));
                    }
                    assert(ranges@.take(j as int) =~= ranges@);
                },
                _ => {
                    assert(pool@ =~= had + held(map, inputs@[i as int]));
                },
            }
        } else {
            assert(store@.remove(key) =~= store@);
            assert(pool@ =~= had + held(map, inputs@[i as int]));
        }
        i += 1;
    }
    assert(inputs@.take(i as int) =~= inputs@);
    pool
}

/// Binds the content that `tx` reveals to the first unit of `pool`.
pub fn inscribe(
    store: &mut Store,
    log: &mut Vec<Change>,
    tx: &Transaction,
    pool: &VecDeque<UnitRange>,
)
    requires
        old(store).wf(),
    ensures
        final(store).wf(),
        final(store)@ == inscribed(old(store)@, *tx, pool@),
        reverted(final(store)@, final(log)@) == reverted(old(store)@, old(log)@),
{
    if pool.len() == 0 {
        return ;
    }
    let first = pool[0];
    if first.start >= first.end {
        return ;
    }
    match read_envelope(&tx.witness) {
        None => {},
        Some(content) => {
            let key = Key::Inscription(first.start);
            if store.get(&key).is_none() {
                let inscription = Inscription {
                    id: tx.txid,
                    content_type: content.content_type,
                    body: content.body,
                };
                record(store, log, key, Some(Value::Inscription(inscription)));
            }
        },
    }
}

/// Enters the outputs of transaction `txid`, each with the units that it
/// takes from the front of `pool`, and returns what no output took.
pub fn settle(
    store: &mut Store,
    log: &mut Vec<Change>,
    txid: TxId,
    pool: VecDeque<UnitRange>,
    values: &Vec<u64>,
) -> (left: VecDeque<UnitRange>)
    requires
        old(store).wf(),
        values@.len() <= u32::MAX,
    ensures
        final(store).wf(),
        final(store)@ == settled(old(store)@, txid, pool@, values@, values@.len() as int),
        left@ == unassigned(pool@, values@),
        reverted(final(store)@, final(log)@) == reverted(old(store)@, old(log)@),
{
    let done = propagate(pool, values);
    let mut k: usize = 0;
    while k < done.outputs.len()
        invariant
            k <= done.outputs@.len(),
            done.outputs@.len() == values@.len(),
            values@.len() <= u32::MAX,
            forall|j: int|
                0 <= j < values@.len() ==> (#[trigger] done.outputs@[j])@ == assigned(
                    pool@,
                    values@,
                    j,
                ),
            store.wf(),
            store@ == settled(old(store)@, txid, pool@, values@, k as int),
            reverted(store@, log@) == reverted(old(store)@, old(log)@),
        decreases done.outputs@.len() - k,
    {
        let key = Key::Output(OutPoint { txid, index: k as u32 });
        let ranges = copy_ranges(&done.outputs[k]);
        record(store, log, key, Some(Value::Ranges(ranges)));
        k += 1;
    }
    done.remainder
}

/// Indexes the units of one transaction other than the issuance
/// transaction: what it leaves joins `fees`.
pub fn index_transaction_units(
    store: &mut Store,
    log: &mut Vec<Change>,
    fees: &mut VecDeque<UnitRange>,
    tx: &Transaction,
)
    requires
        old(store).wf(),
        indexable(*tx),
    ensures
        final(store).wf(),
        (UnitState { map: final(store)@, fees: final(fees)@ }) == unit_step(
            (UnitState { map: old(store)@, fees: old(fees)@ }),
            *tx,
        ),
        reverted(final(store)@, final(log)@) == reverted(old(store)@, old(log)@),
{
    let pool = gather(store, log, &tx.inputs);
    inscribe(store, log, tx, &pool);
    let values = values_of(&tx.outputs);
    let mut left = settle(store, log, tx.txid, pool, &values);
    fees.append(&mut left);
}

/// Indexes the units of a block that issues the units of `issued`, and
/// returns the ranges that its issuance transaction left unclaimed.
pub fn index_block_units(
    store: &mut Store,
    log: &mut Vec<Change>,
    txs: &Vec<Transaction>,
    issued: UnitRange,
) -> (unclaimed: VecDeque<UnitRange>)
    requires
        old(store).wf(),
        all_indexable(txs@),
    ensures
        final(store).wf(),
        (UnitState { map: final(store)@, fees: unclaimed@ }) == unit_block(
            old(store)@,
            txs@,
            issued,
        ),
        reverted(final(store)@, final(log)@) == reverted(old(store)@, old(log)@),
{
    let mut fees: VecDeque<UnitRange> = VecDeque::new();
    let mut i: usize = 1;
    while i < txs.len()
        invariant
            1 <= i,
            all_indexable(txs@),
            store.wf(),
            (UnitState { map: store@, fees: fees@ }) == unit_steps(
                (UnitState { map: old(store)@, fees: Seq::empty() }),
                txs@,
                if i <= txs@.len() {
                    i as int
                } else {
                    txs@.len() as int
                },
            ),
            reverted(store@, log@) == reverted(old(store)@, old(log)@),
        decreases txs@.len() - i,
    {
        index_transaction_units(store, log, &mut fees, &txs[i]);
        i += 1;
    }
    let ghost before = fees@;
    if issued.start < issued.end {
        fees.push_front(issued);
    }
    assert(fees@ =~= issuance_pool(issued, before));
    if txs.len() == 0 {
        fees
    } else {
        inscribe(store, log, &txs[0], &fees);
        let values = values_of(&txs[0].outputs);
        settle(store, log, txs[0].txid, fees, &values)
    }
}

} // verus!
