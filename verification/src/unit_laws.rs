//! Laws of unit propagation: no unit is made or lost on the way from
//! inputs to outputs.

use vstd::prelude::*;
use crate::chain::output_values;
use crate::chain::Transaction;
use crate::store::Item;
use crate::store::Key;
use crate::unit_index::issuance_pool;
use crate::unit_index::spent_pool;
use crate::unit_index::unit_block;
use crate::unit_index::unit_steps;
use crate::unit_index::UnitState;
use crate::units::assigned;
use crate::units::drop_front;
use crate::units::lemma_drop_drop;
use crate::units::lemma_pool_concat;
use crate::units::lemma_take_drop;
use crate::units::pool_size;
use crate::units::pool_units;
use crate::units::sum_before;
use crate::units::unassigned;
use crate::units::UnitRange;

verus! {

/// How many units the first `k` outputs of a transaction take from `pool`.
pub open spec fn assigned_size(pool: Seq<UnitRange>, values: Seq<u64>, k: int) -> nat
    decreases k,
{
    if k <= 0 {
        0
    } else {
        assigned_size(pool, values, k - 1) + pool_size(assigned(pool, values, k - 1))
    }
}

/// The units that the first `k` outputs of a transaction take from `pool`,
/// output by output.
pub open spec fn assigned_units(pool: Seq<UnitRange>, values: Seq<u64>, k: int) -> Seq<nat>
    decreases k,
{
    if k <= 0 {
        Seq::empty()
    } else {
        assigned_units(pool, values, k - 1) + pool_units(assigned(pool, values, k - 1))
    }
}

/// Within a transaction, the units of the first `k` outputs followed by
/// the units not yet handed out are the units of the inputs, in their
/// order.
pub proof fn lemma_outputs_keep_units(pool: Seq<UnitRange>, values: Seq<u64>, k: int)
    requires
        0 <= k <= values.len(),
    ensures
        assigned_units(pool, values, k) + pool_units(drop_front(pool, sum_before(values, k)))
            == pool_units(pool),
        assigned_size(pool, values, k) + pool_size(drop_front(pool, sum_before(values, k)))
            == pool_size(pool),
    decreases k,
{
    if k == 0 {
        assert(assigned_units(pool, values, k) + pool_units(pool) =~= pool_units(pool));
    } else {
        lemma_outputs_keep_units(pool, values, k - 1);
        let left = drop_front(pool, sum_before(values, k - 1));
        lemma_take_drop(left, values[k - 1] as nat);
        lemma_drop_drop(pool, sum_before(values, k - 1), values[k - 1] as nat);
        assert(assigned_units(pool, values, k) + pool_units(
            drop_front(pool, sum_before(values, k)),
        ) =~= assigned_units(pool, values, k - 1) + pool_units(left));
    }
}

/// Conservation within a transaction: the units that enter through the
/// inputs are, in the same order, the units of the outputs followed by the
/// remainder; so as many enter as are assigned and left over.
pub proof fn lemma_transaction_conserves_units(pool: Seq<UnitRange>, values: Seq<u64>)
    ensures
        assigned_units(pool, values, values.len() as int) + pool_units(unassigned(pool, values))
            == pool_units(pool),
        assigned_size(pool, values, values.len() as int) + pool_size(unassigned(pool, values))
            == pool_size(pool),
{
    lemma_outputs_keep_units(pool, values, values.len() as int);
}

/// How many units enter through the inputs of the transactions of a block
/// before index `n`, the issuance transaction apart.
pub open spec fn entered(state: UnitState, txs: Seq<Transaction>, n: int) -> nat
    decreases n,
{
    if n <= 1 {
        0
    } else {
        entered(state, txs, n - 1) + pool_size(
            spent_pool(unit_steps(state, txs, n - 1).map, txs[n - 1].inputs@),
        )
    }
}

/// How many units the outputs of those transactions receive.
pub open spec fn handed_out(state: UnitState, txs: Seq<Transaction>, n: int) -> nat
    decreases n,
{
    if n <= 1 {
        0
    } else {
        handed_out(state, txs, n - 1) + assigned_size(
            spent_pool(unit_steps(state, txs, n - 1).map, txs[n - 1].inputs@),
            output_values(txs[n - 1].outputs@),
            txs[n - 1].outputs@.len() as int,
        )
    }
}

/// How many units enter a block through the inputs of its transactions.
pub open spec fn block_entered(map: Map<Key, Item>, txs: Seq<Transaction>) -> nat {
    entered(UnitState { map, fees: Seq::empty() }, txs, txs.len() as int)
}

/// How many units the outputs of a block receive, those of the issuance
/// transaction included.
pub open spec fn block_assigned(map: Map<Key, Item>, txs: Seq<Transaction>, issued: UnitRange)
    -> nat {
    let start = UnitState { map, fees: Seq::empty() };
    if txs.len() == 0 {
        0
    } else {
        handed_out(start, txs, txs.len() as int) + assigned_size(
            issuance_pool(issued, unit_steps(start, txs, txs.len() as int).fees),
            output_values(txs[0].outputs@),
            txs[0].outputs@.len() as int,
        )
    }
}

/// After the transactions before index `n`, what entered is what the
/// outputs received and what has gathered as fees.
pub proof fn lemma_fees_account(state: UnitState, txs: Seq<Transaction>, n: int)
    requires
        n <= txs.len(),
    ensures
        entered(state, txs, n) + pool_size(state.fees) == handed_out(state, txs, n) + pool_size(
            unit_steps(state, txs, n).fees,
        ),
    decreases n,
{
    if n > 1 {
        lemma_fees_account(state, txs, n - 1);
        let before = unit_steps(state, txs, n - 1);
        let pool = spent_pool(before.map, txs[n - 1].inputs@);
        let values = output_values(txs[n - 1].outputs@);
        lemma_transaction_conserves_units(pool, values);
        lemma_pool_concat(before.fees, unassigned(pool, values));
    }
}

/// Conservation over a block, whatever its transactions: the units that
/// enter through inputs, and the units newly issued, are as many as the
/// units that outputs receive and the units that the issuance transaction
/// leaves unclaimed.
pub proof fn lemma_block_conserves_units(
    map: Map<Key, Item>,
    txs: Seq<Transaction>,
    issued: UnitRange,
)
    ensures
        block_entered(map, txs) + issued.size() == block_assigned(map, txs, issued) + pool_size(
            unit_block(map, txs, issued).fees,
        ),
{
    let start = UnitState { map, fees: Seq::<UnitRange>::empty() };
    lemma_fees_account(start, txs, txs.len() as int);
    let fees = unit_steps(start, txs, txs.len() as int).fees;
    let pool = issuance_pool(issued, fees);
    assert(pool_size(Seq::<UnitRange>::empty()) == 0);
    assert(pool_size(pool) == issued.size() + pool_size(fees)) by {
        if issued.start < issued.end {
            lemma_pool_concat(seq![issued], fees);
            assert(seq![issued].skip(1) =~= Seq::<UnitRange>::empty());
            assert(pool_size(seq![issued]) == issued.size());
        }
    }
    if txs.len() > 0 {
        lemma_transaction_conserves_units(pool, output_values(txs[0].outputs@));
    }
}

} // verus!
