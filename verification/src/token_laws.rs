//! Laws of the token ledger.

use vstd::prelude::*;
use crate::allocation::allocated;
use crate::allocation::first_eligible;
use crate::allocation::lemma_first_eligible_found;
use crate::allocation::no_amounts;
use crate::chain::output_at;
use crate::chain::OutPoint;
use crate::chain::Transaction;
use crate::chain::TxId;
use crate::ledger::available;
use crate::ledger::burned;
use crate::ledger::credited;
use crate::ledger::eligible_outputs;
use crate::ledger::emptied;
use crate::ledger::freed;
use crate::allocation::moved;
use crate::ledger::mint_amount;
use crate::ledger::minted;
use crate::ledger::purse_at;
use crate::ledger::registered;
use crate::ledger::token_step;
use crate::message::Edict;
use crate::message::InstructionView;
use crate::purse::amount_of;
use crate::purse::credit;
use crate::purse::distinct;
use crate::purse::lemma_credit;
use crate::purse::lemma_debit;
use crate::purse::lemma_position;
use crate::purse::lemma_position_found;
use crate::purse::merged;
use crate::purse::position;
use crate::store::Item;
use crate::store::Key;
use crate::token::Balance;
use crate::token::TokenId;

verus! {

/// Merging purses keeps one entry for each token.
pub proof fn lemma_merged_distinct(purse: Seq<Balance>, other: Seq<Balance>)
    requires
        distinct(purse),
    ensures
        distinct(merged(purse, other)),
    decreases other.len(),
{
    if other.len() > 0 {
        lemma_merged_distinct(purse, other.drop_last());
        lemma_credit(
            merged(purse, other.drop_last()),
            other.last().token,
            other.last().amount,
            other.last().token,
        );
    }
}

/// What inputs free has one entry for each token.
pub proof fn lemma_freed_distinct(map: Map<Key, Item>, inputs: Seq<OutPoint>)
    ensures
        distinct(freed(map, inputs)),
    decreases inputs.len(),
{
    if inputs.len() > 0 {
        lemma_freed_distinct(map, inputs.drop_last());
        lemma_merged_distinct(
            freed(map, inputs.drop_last()),
            purse_at(emptied(map, inputs.drop_last()), inputs.last()),
        );
    }
}

/// Burning tokens leaves nothing of them, and keeps one entry for each
/// token.
pub proof fn lemma_burned(purse: Seq<Balance>, tokens: Seq<TokenId>, token: TokenId)
    ensures
        tokens.contains(token) ==> amount_of(burned(purse, tokens), token) == 0,
        !tokens.contains(token) ==> amount_of(burned(purse, tokens), token) == amount_of(
            purse,
            token,
        ),
        distinct(purse) ==> distinct(burned(purse, tokens)),
    decreases tokens.len(),
{
    if tokens.len() > 0 {
        let init = tokens.drop_last();
        lemma_burned(purse, init, token);
        lemma_debit(burned(purse, init), tokens.last(), u128::MAX, token);
        if tokens.contains(token) {
            let at = choose|i: int| 0 <= i < tokens.len() && tokens[i] == token;
            if at < tokens.len() - 1 {
                assert(init[at] == token);
                assert(init.contains(token));
            }
        } else {
            assert(tokens.last() != token) by {
                assert(tokens[tokens.len() - 1] == tokens.last());
            }
            if init.contains(token) {
                let at = choose|i: int| 0 <= i < init.len() && init[i] == token;
                assert(tokens[at] == token);
            }
        }
    }
}

/// Merging in a purse that holds nothing of a token adds nothing of it.
pub proof fn lemma_merged_without(purse: Seq<Balance>, other: Seq<Balance>, token: TokenId)
    requires
        distinct(other),
        amount_of(other, token) == 0,
    ensures
        amount_of(merged(purse, other), token) == amount_of(purse, token),
    decreases other.len(),
{
    if other.len() > 0 {
        let init = other.drop_last();
        let last = other.last();
        lemma_position_found(other, token);
        lemma_position_found(init, token);
        let at = position(other, token);
        let was = position(init, token);
        assert(distinct(init)) by {
            assert forall|i: int, j: int| 0 <= i < j < init.len() implies (#[trigger] init[i]).token
                != (#[trigger] init[j]).token by {
                assert(init[i] == other[i] && init[j] == other[j]);
            }
        }
        assert(amount_of(init, token) == 0) by {
            if was < init.len() {
                assert forall|j: int| 0 <= j < was implies (#[trigger] other[j]).token != token by {
                    assert(other[j] == init[j]);
                }
                assert(other[was] == init[was]);
                lemma_position(other, token, was);
            }
        }
        lemma_merged_without(purse, init, token);
        lemma_credit(merged(purse, init), last.token, last.amount, token);
        if last.token == token {
            if was < init.len() {
                assert(other[was].token == other[other.len() - 1].token);
            } else {
                assert forall|j: int| 0 <= j < other.len() - 1 implies (#[trigger] other[j]).token
                    != token by {
                    assert(other[j] == init[j]);
                }
                lemma_position(other, token, other.len() - 1);
            }
        }
    }
}

/// After the balances of a transaction's outputs are entered, each of its
/// outputs holds what was entered for it, and the outputs of other
/// transactions hold what they held.
pub proof fn lemma_credited(
    map: Map<Key, Item>,
    txid: TxId,
    outputs: Seq<Seq<Balance>>,
    k: int,
    outpoint: OutPoint,
)
    requires
        0 <= k <= outputs.len(),
        k <= u32::MAX + 1,
    ensures
        purse_at(credited(map, txid, outputs, k), outpoint) == if outpoint.txid == txid
            && outpoint.index < k {
            outputs[outpoint.index as int]
        } else {
            purse_at(map, outpoint)
        },
    decreases k,
{
    if k > 0 {
        lemma_credited(map, txid, outputs, k - 1, outpoint);
        let key = Key::Balances(OutPoint { txid, index: (k - 1) as u32 });
        if outpoint.txid == txid && outpoint.index == k - 1 {
            assert(Key::Balances(outpoint) == key);
            assert(purse_at(credited(map, txid, outputs, k), outpoint) =~= outputs[k - 1]);
        } else {
            assert(Key::Balances(outpoint) != key);
        }
    }
}

/// Once the balances of inputs are taken out, an input holds none.
pub proof fn lemma_emptied(map: Map<Key, Item>, inputs: Seq<OutPoint>, i: int)
    requires
        0 <= i < inputs.len(),
    ensures
        purse_at(emptied(map, inputs), inputs[i]) == Seq::<Balance>::empty(),
    decreases inputs.len(),
{
    if i < inputs.len() - 1 {
        lemma_emptied(map, inputs.drop_last(), i);
        assert(inputs.drop_last()[i] == inputs[i]);
    }
}

/// A cenotaph burns all that the inputs of its transaction held of the
/// tokens it names: no output of the transaction receives any of it, and
/// the inputs, spent, hold none.
pub proof fn lemma_cenotaph_burns(
    map: Map<Key, Item>,
    id: TokenId,
    tx: Transaction,
    instruction: InstructionView,
    token: TokenId,
)
    requires
        instruction is Cenotaph,
        instruction.burns().contains(token),
        tx.outputs@.len() <= u32::MAX,
    ensures
        forall|k: int|
            0 <= k < tx.outputs@.len() ==> amount_of(
                purse_at(
                    token_step(map, id, tx, instruction),
                    #[trigger] output_at(tx.txid, k),
                ),
                token,
            ) == 0,
        forall|i: int|
            0 <= i < tx.inputs@.len() && tx.inputs@[i].txid != tx.txid ==> purse_at(
                token_step(map, id, tx, instruction),
                #[trigger] tx.inputs@[i],
            ) == Seq::<Balance>::empty(),
{
    let spent = emptied(map, tx.inputs@);
    let pool = freed(map, tx.inputs@);
    let eligible = eligible_outputs(tx.outputs@);
    let count = eligible.len() as int;
    let left = burned(pool, instruction.burns());
    let outputs = allocated(left, Seq::<Edict>::empty(), eligible);
    let after = token_step(map, id, tx, instruction);
    assert(instruction.edicts() == Seq::<Edict>::empty());
    assert(after == credited(spent, tx.txid, outputs, count));
    lemma_freed_distinct(map, tx.inputs@);
    lemma_burned(pool, instruction.burns(), token);
    lemma_first_eligible_found(eligible);
    let first = first_eligible(eligible);
    assert(amount_of(Seq::<Balance>::empty(), token) == 0);
    assert forall|k: int| 0 <= k < tx.outputs@.len() implies amount_of(
        purse_at(after, #[trigger] output_at(tx.txid, k)),
        token,
    ) == 0 by {
        lemma_credited(spent, tx.txid, outputs, count, OutPoint { txid: tx.txid, index: k as u32 });
        if k == first {
            lemma_merged_without(no_amounts(eligible.len())[k], left, token);
        } else {
            assert(outputs[k] == no_amounts(eligible.len())[k]);
        }
    }
    assert forall|i: int|
        0 <= i < tx.inputs@.len() && tx.inputs@[i].txid != tx.txid implies purse_at(
        after,
        #[trigger] tx.inputs@[i],
    ) == Seq::<Balance>::empty() by {
        lemma_credited(spent, tx.txid, outputs, count, tx.inputs@[i]);
        lemma_emptied(map, tx.inputs@, i);
    }
}

/// A mint that makes nothing changes nothing: the transaction does what it
/// would do with its edicts alone. So a mint outside its window leaves
/// supply and balances as they were, and the edicts still apply.
pub proof fn lemma_closed_mint_changes_nothing(
    map: Map<Key, Item>,
    id: TokenId,
    tx: Transaction,
    token: TokenId,
    edicts: Seq<Edict>,
)
    requires
        mint_amount(emptied(map, tx.inputs@), token, id.height) == 0,
    ensures
        token_step(map, id, tx, InstructionView::Mint { token, edicts }) == token_step(
            map,
            id,
            tx,
            InstructionView::Edicts { edicts },
        ),
{
}

/// A mint never takes the supply of a token beyond its cap.
pub proof fn lemma_mint_within_cap(map: Map<Key, Item>, token: TokenId, height: u64)
    requires
        mint_amount(map, token, height) > 0,
    ensures
        minted(map, token, height).contains_key(Key::Token(token)),
        minted(map, token, height)[Key::Token(token)] matches Item::Token(entry)
            && entry.terms matches Some(terms) && entry.supply <= terms.cap,
{
}

/// An edict moves no more than it asks for and no more than is available:
/// no balance goes below zero.
pub proof fn lemma_edict_is_capped(unallocated: Seq<Balance>, edict: Edict)
    ensures
        moved(unallocated, edict) <= edict.amount,
        moved(unallocated, edict) <= amount_of(unallocated, edict.token),
{
}

/// A mint after the last height of its terms makes nothing.
pub proof fn lemma_mint_after_end(map: Map<Key, Item>, token: TokenId, height: u64)
    requires
        map.contains_key(Key::Token(token)),
        map[Key::Token(token)] matches Item::Token(entry) && entry.terms matches Some(terms)
            && terms.end matches Some(end) && end < height,
    ensures
        mint_amount(map, token, height) == 0,
        minted(map, token, height) == map,
{
}

} // verus!
