//! The token ledger: what a transaction and its instruction do to tokens
//! and balances.

use vstd::prelude::*;
use crate::allocation::allocate;
use crate::allocation::allocated;
use crate::allocation::purses;
use crate::chain::OutPoint;
use crate::chain::Transaction;
use crate::chain::TxId;
use crate::chain::TxOut;
use crate::message::Edict;
use crate::message::Etching;
use crate::message::Instruction;
use crate::message::InstructionView;
use crate::message::MAX_DIVISIBILITY;
use crate::purse::credit;
use crate::purse::debit;
use crate::purse::deposit;
use crate::purse::merge;
use crate::purse::merged;
use crate::purse::withdraw;
use crate::store::copy_balances;
use crate::store::record;
use crate::store::reverted;
use crate::store::with;
use crate::store::Change;
use crate::store::Item;
use crate::store::Key;
use crate::store::Store;
use crate::store::Value;
use crate::token::Balance;
use crate::token::Terms;
use crate::token::TokenEntry;
use crate::token::TokenId;

verus! {

/// The amounts that the output `outpoint` holds in `map`; none where it
/// is unknown or spent.
pub open spec fn purse_at(map: Map<Key, Item>, outpoint: OutPoint) -> Seq<Balance> {
    match map.get(Key::Balances(outpoint)) {
        Some(Item::Balances(purse)) => purse,
        _ => Seq::empty(),
    }
}

/// `map` once the balances of the outputs in `inputs` are taken out.
pub open spec fn emptied(map: Map<Key, Item>, inputs: Seq<OutPoint>) -> Map<Key, Item>
    decreases inputs.len(),
{
    if inputs.len() == 0 {
        map
    } else {
        emptied(map, inputs.drop_last()).remove(Key::Balances(inputs.last()))
    }
}

/// The amounts that spending the outputs in `inputs` frees, token by
/// token.
pub open spec fn freed(map: Map<Key, Item>, inputs: Seq<OutPoint>) -> Seq<Balance>
    decreases inputs.len(),
{
    if inputs.len() == 0 {
        Seq::empty()
    } else {
        merged(
            freed(map, inputs.drop_last()),
            purse_at(emptied(map, inputs.drop_last()), inputs.last()),
        )
    }
}

/// Which outputs may hold tokens: those that carry no message.
pub open spec fn eligible_outputs(outputs: Seq<TxOut>) -> Seq<bool> {
    Seq::new(outputs.len(), |k: int| outputs[k].payload is None)
}

/// Whether `etching` may create the token `id`: its divisibility is within
/// bounds, and neither the identifier nor the name is taken.
pub open spec fn can_etch(map: Map<Key, Item>, id: TokenId, etching: Etching) -> bool {
    &&& etching.divisibility <= MAX_DIVISIBILITY
    &&& !map.contains_key(Key::Token(id))
    &&& !map.contains_key(Key::Name(etching.name))
}

/// The entry of a token just etched: nothing is issued yet.
pub open spec fn new_entry(etching: Etching, txid: TxId) -> TokenEntry {
    TokenEntry {
        name: etching.name,
        divisibility: etching.divisibility,
        symbol: etching.symbol,
        supply: 0,
        terms: etching.terms,
        etching: txid,
    }
}

/// `map` with the token `id` entered under its identifier and its name,
/// where `etching` may create it.
pub open spec fn etched(map: Map<Key, Item>, id: TokenId, etching: Etching, txid: TxId) -> Map<
    Key,
    Item,
> {
    if can_etch(map, id, etching) {
        map.insert(Key::Token(id), Item::Token(new_entry(etching, txid))).insert(
            Key::Name(etching.name),
            Item::Id(id),
        )
    } else {
        map
    }
}

/// Whether a mint at `height` is within the terms: not before the start,
/// not after the end, and within what the cap leaves.
pub open spec fn mint_open(terms: Terms, supply: u128, height: u64) -> bool {
    &&& terms.start matches Some(start) ==> start <= height
    &&& terms.end matches Some(end) ==> height <= end
    &&& supply + terms.amount <= terms.cap
}

/// How much a mint of `token` at `height` makes: the amount of its terms,
/// or nothing where the token is unknown, has no terms or is closed.
pub open spec fn mint_amount(map: Map<Key, Item>, token: TokenId, height: u64) -> u128 {
    match map.get(Key::Token(token)) {
        Some(Item::Token(entry)) => match entry.terms {
            Some(terms) => if mint_open(terms, entry.supply, height) {
                terms.amount
            } else {
                0
            },
            None => 0,
        },
        _ => 0,
    }
}

/// `map` with the supply of `token` raised by what a mint at `height`
/// makes.
pub open spec fn minted(map: Map<Key, Item>, token: TokenId, height: u64) -> Map<Key, Item> {
    match map.get(Key::Token(token)) {
        Some(Item::Token(entry)) => if mint_amount(map, token, height) > 0 {
            map.insert(
                Key::Token(token),
                Item::Token(
                    TokenEntry {
                        supply: (entry.supply + mint_amount(map, token, height)) as u128,
                        ..entry
                    },
                ),
            )
        } else {
            map
        },
        _ => map,
    }
}

/// `purse` without any amount of the tokens in `tokens`.
pub open spec fn burned(purse: Seq<Balance>, tokens: Seq<TokenId>) -> Seq<Balance>
    decreases tokens.len(),
{
    if tokens.len() == 0 {
        purse
    } else {
        debit(burned(purse, tokens.drop_last()), tokens.last(), u128::MAX)
    }
}

/// What the instruction does to the entries of tokens: an etching creates
/// one, a mint raises a supply.
pub open spec fn registered(
    map: Map<Key, Item>,
    id: TokenId,
    txid: TxId,
    instruction: InstructionView,
) -> Map<Key, Item> {
    match instruction {
        InstructionView::Etch { etching, edicts } => etched(map, id, etching, txid),
        InstructionView::Mint { token, edicts } => minted(map, token, id.height),
        _ => map,
    }
}

/// What the transaction has to share out: what its inputs freed, with
/// what a mint makes, without what a cenotaph burns.
pub open spec fn available(
    pool: Seq<Balance>,
    map: Map<Key, Item>,
    height: u64,
    instruction: InstructionView,
) -> Seq<Balance> {
    match instruction {
        InstructionView::Mint { token, edicts } => credit(
            pool,
            token,
            mint_amount(map, token, height),
        ),
        InstructionView::Cenotaph { tokens } => burned(pool, tokens),
        _ => pool,
    }
}

/// `map` with the balances of the first `k` outputs of transaction `txid`
/// entered; an output that holds nothing has no entry.
pub open spec fn credited(
    map: Map<Key, Item>,
    txid: TxId,
    outputs: Seq<Seq<Balance>>,
    k: int,
) -> Map<Key, Item>
    decreases k,
{
    if k <= 0 {
        map
    } else {
        with(
            credited(map, txid, outputs, k - 1),
            Key::Balances(OutPoint { txid, index: (k - 1) as u32 }),
            if outputs[k - 1].len() > 0 {
                Some(Item::Balances(outputs[k - 1]))
            } else {
                None
            },
        )
    }
}

/// What the transaction at index `id.tx` of the block at height
/// `id.height` does to the token ledger. Its inputs are spent and what they
/// held is freed. An etching creates its token; a mint, where it is open,
/// raises the supply and adds to what is freed, and does nothing where it is
/// not; a cenotaph burns what is freed of the tokens it names. The edicts
/// move amounts to outputs, and what is left goes to the first output that
/// may hold tokens.
pub open spec fn token_step(
    map: Map<Key, Item>,
    id: TokenId,
    tx: Transaction,
    instruction: InstructionView,
) -> Map<Key, Item> {
    let spent = emptied(map, tx.inputs@);
    let pool = freed(map, tx.inputs@);
    let eligible = eligible_outputs(tx.outputs@);
    credited(
        registered(spent, id, tx.txid, instruction),
        tx.txid,
        allocated(
            available(pool, spent, id.height, instruction),
            instruction.edicts(),
            eligible,
        ),
        eligible.len() as int,
    )
}

/// Takes the balances of the outputs in `inputs` out of the store and
/// returns them as one purse.
pub fn collect(store: &mut Store, log: &mut Vec<Change>, inputs: &Vec<OutPoint>) -> (pool: Vec<
    Balance,
>)
    requires
        old(store).wf(),
    ensures
        final(store).wf(),
        final(store)@ == emptied(old(store)@, inputs@),
        pool@ == freed(old(store)@, inputs@),
        reverted(final(store)@, final(log)@) == reverted(old(store)@, old(log)@),
{
    let mut pool: Vec<Balance> = Vec::new();
    let mut i: usize = 0;
    while i < inputs.len()
        invariant
            i <= inputs@.len(),
            store.wf(),
            store@ == emptied(old(store)@, inputs@.take(i as int)),
            pool@ == freed(old(store)@, inputs@.take(i as int)),
            reverted(store@, log@) == reverted(old(store)@, old(log)@),
        decreases inputs@.len() - i,
    {
        let ghost map = store@;
        let ghost had = pool@;
        assert(inputs@.take(i + 1).drop_last() =~= inputs@.take(i as int));
        let key = Key::Balances(inputs[i]);
        if store.get(&key).is_some() {
            let before = record(store, log, key, None);
            match before {
                Some(Value::Balances(purse)) => {
                    merge(&mut pool, &purse);
                },
                _ => {
                    assert(purse_at(map, inputs@[i as int]) =~= Seq::<Balance>::empty());
                },
            }
        } else {
            assert(store@.remove(key) =~= store@);
            assert(purse_at(map, inputs@[i as int]) =~= Seq::<Balance>::empty());
        }
        i += 1;
    }
    assert(inputs@.take(i as int) =~= inputs@);
    pool
}

/// Which outputs may hold tokens.
pub fn eligibility(outputs: &Vec<TxOut>) -> (eligible: Vec<bool>)
    ensures
        eligible@ == eligible_outputs(outputs@),
{
    let mut eligible: Vec<bool> = Vec::new();
    let mut k: usize = 0;
    while k < outputs.len()
        invariant
            k <= outputs@.len(),
            eligible@ == eligible_outputs(outputs@).take(k as int),
        decreases outputs@.len() - k,
    {
        eligible.push(outputs[k].payload.is_none());
        k += 1;
        assert(eligible@ =~= eligible_outputs(outputs@).take(k as int));
    }
    assert(eligible_outputs(outputs@).take(k as int) =~= eligible_outputs(outputs@));
    eligible
}

/// Enters the token that `etching` creates, where it may.
pub fn etch(store: &mut Store, log: &mut Vec<Change>, id: TokenId, etching: Etching, txid: TxId)
    requires
        old(store).wf(),
    ensures
        final(store).wf(),
        final(store)@ == etched(old(store)@, id, etching, txid),
        reverted(final(store)@, final(log)@) == reverted(old(store)@, old(log)@),
{
    if etching.divisibility <= MAX_DIVISIBILITY && store.get(&Key::Token(id)).is_none()
        && store.get(&Key::Name(etching.name)).is_none() {
        let entry = TokenEntry {
            name: etching.name,
            divisibility: etching.divisibility,
            symbol: etching.symbol,
            supply: 0,
            terms: etching.terms,
            etching: txid,
        };
        record(store, log, Key::Token(id), Some(Value::Token(entry)));
        record(store, log, Key::Name(etching.name), Some(Value::Id(id)));
    }
}

/// Mints `token` at `height`, where its terms allow, and returns how much
/// that made.
pub fn mint(store: &mut Store, log: &mut Vec<Change>, token: TokenId, height: u64) -> (amount:
    u128)
    requires
        old(store).wf(),
    ensures
        final(store).wf(),
        amount == mint_amount(old(store)@, token, height),
        final(store)@ == minted(old(store)@, token, height),
        reverted(final(store)@, final(log)@) == reverted(old(store)@, old(log)@),
{
    let entry = match store.get(&Key::Token(token)) {
        Some(Value::Token(entry)) => *entry,
        _ => {
            return 0;
        },
    };
    let terms = match entry.terms {
        Some(terms) => terms,
        None => {
            return 0;
        },
    };
    let started = match terms.start {
        Some(start) => start <= height,
        None => true,
    };
    let running = match terms.end {
        Some(end) => height <= end,
        None => true,
    };
    let supply = match entry.supply.checked_add(terms.amount) {
        Some(supply) => supply,
        None => {
            return 0;
        },
    };
    if !started || !running || supply > terms.cap || terms.amount == 0 {
        return 0;
    }
    let raised = TokenEntry {
        name: entry.name,
        divisibility: entry.divisibility,
        symbol: entry.symbol,
        supply,
        terms: entry.terms,
        etching: entry.etching,
    };
    record(store, log, Key::Token(token), Some(Value::Token(raised)));
    terms.amount
}

/// Takes every amount of the tokens in `tokens` out of the purse.
pub fn burn(purse: &mut Vec<Balance>, tokens: &Vec<TokenId>)
    ensures
        final(purse)@ == burned(old(purse)@, tokens@),
{
    let mut i: usize = 0;
    while i < tokens.len()
        invariant
            i <= tokens@.len(),
            purse@ == burned(old(purse)@, tokens@.take(i as int)),
        decreases tokens@.len() - i,
    {
        assert(tokens@.take(i + 1).drop_last() =~= tokens@.take(i as int));
        withdraw(purse, tokens[i], u128::MAX);
        i += 1;
    }
    assert(tokens@.take(i as int) =~= tokens@);
}

/// Enters what the outputs of transaction `txid` hold.
pub fn credit_outputs(
    store: &mut Store,
    log: &mut Vec<Change>,
    txid: TxId,
    outputs: &Vec<Vec<Balance>>,
)
    requires
        old(store).wf(),
        outputs@.len() <= u32::MAX,
    ensures
        final(store).wf(),
        final(store)@ == credited(old(store)@, txid, purses(outputs@), outputs@.len() as int),
        reverted(final(store)@, final(log)@) == reverted(old(store)@, old(log)@),
{
    let mut k: usize = 0;
    while k < outputs.len()
        invariant
            k <= outputs@.len(),
            outputs@.len() <= u32::MAX,
            store.wf(),
            store@ == credited(old(store)@, txid, purses(outputs@), k as int),
            reverted(store@, log@) == reverted(old(store)@, old(log)@),
        decreases outputs@.len() - k,
    {
        let key = Key::Balances(OutPoint { txid, index: k as u32 });
        if outputs[k].len() > 0 {
            let purse = copy_balances(&outputs[k]);
            record(store, log, key, Some(Value::Balances(purse)));
        } else if store.get(&key).is_some() {
            record(store, log, key, None);
        } else {
            assert(store@.remove(key) =~= store@);
        }
        k += 1;
    }
}

/// Carries out what a transaction and its instruction tell the token
/// ledger.
pub fn index_transaction_tokens(
    store: &mut Store,
    log: &mut Vec<Change>,
    id: TokenId,
    tx: &Transaction,
    instruction: &Instruction,
)
    requires
        old(store).wf(),
        tx.outputs@.len() <= u32::MAX,
    ensures
        final(store).wf(),
        final(store)@ == token_step(old(store)@, id, *tx, instruction@),
        reverted(final(store)@, final(log)@) == reverted(old(store)@, old(log)@),
{
    let mut pool = collect(store, log, &tx.inputs);
    let eligible = eligibility(&tx.outputs);
    let none: Vec<Edict> = Vec::new();
    let outputs = match instruction {
        Instruction::Etch { etching, edicts } => {
            etch(store, log, id, *etching, tx.txid);
            allocate(pool, edicts, &eligible)
        },
        Instruction::Mint { token, edicts } => {
            let amount = mint(store, log, *token, id.height);
            deposit(&mut pool, *token, amount);
            allocate(pool, edicts, &eligible)
        },
        Instruction::Edicts { edicts } => allocate(pool, edicts, &eligible),
        Instruction::Cenotaph { tokens } => {
            burn(&mut pool, tokens);
            allocate(pool, &none, &eligible)
        },
        Instruction::Absent => allocate(pool, &none, &eligible),
    };
    credit_outputs(store, log, tx.txid, &outputs);
}

} // verus!
