use ord::chain::Block;
use ord::chain::BlockHash;
use ord::chain::OutPoint;
use ord::chain::Transaction;
use ord::chain::TxId;
use ord::chain::TxOut;
use ord::error::Error;
use ord::index::Index;
use ord::issuance::Schedule;
use ord::ledger::index_transaction_tokens;
use ord::message::Edict;
use ord::message::Etching;
use ord::message::Instruction;
use ord::rune::Rune;
use ord::store::undo;
use ord::store::Change;
use ord::store::Key;
use ord::store::Store;
use ord::store::Value;
use ord::token::Balance;
use ord::token::Terms;
use ord::token::TokenEntry;
use ord::token::TokenId;

fn packed(numbers: &[u128]) -> Vec<u8> {
    let mut out = Vec::new();
    for number in numbers {
        let mut n = *number;
        loop {
            let low = (n & 0x7f) as u8;
            n >>= 7;
            if n == 0 {
                out.push(low);
                break;
            }
            out.push(low | 0x80);
        }
    }
    out
}

fn txid(n: u128) -> TxId {
    TxId { high: 0, low: n }
}

fn op(n: u128, index: u32) -> OutPoint {
    OutPoint { txid: txid(n), index }
}

fn plain(value: u64) -> TxOut {
    TxOut { value, payload: None }
}

fn carrying(numbers: &[u128]) -> TxOut {
    TxOut { value: 0, payload: Some(packed(numbers)) }
}

fn tx(n: u128, inputs: Vec<OutPoint>, outputs: Vec<TxOut>) -> Transaction {
    Transaction { txid: txid(n), inputs, outputs, witness: vec![] }
}

fn block(height: u128, transactions: Vec<Transaction>) -> Block {
    Block {
        hash: BlockHash { high: 1, low: height },
        parent: BlockHash { high: 1, low: height.wrapping_sub(1) },
        transactions,
    }
}

fn t() -> TokenId {
    TokenId { height: 0, tx: 0 }
}

fn u() -> TokenId {
    TokenId { height: 0, tx: 1 }
}

fn of(token: TokenId, amount: u128) -> Balance {
    Balance { token, amount }
}

const ETCH_T: [u128; 16] = [1, 3, 2, 27, 3, 2, 4, 82, 5, 250, 6, 100, 7, 1, 8, 2];
const ETCH_U: [u128; 8] = [1, 3, 2, 701, 5, 1000, 6, 10];
const MINT_T: [u128; 4] = [9, 0, 10, 0];
const MINT_U: [u128; 4] = [9, 0, 10, 1];
const MINT_T_AND_MOVE: [u128; 9] = [9, 0, 10, 0, 0, 0, 0, 30, 1];

fn etched() -> Index {
    let mut index = Index::new(Schedule::new(50, 2).unwrap());
    let first = block(
        0,
        vec![
            tx(1, vec![], vec![plain(50), carrying(&ETCH_T)]),
            tx(2, vec![], vec![plain(0), carrying(&ETCH_U)]),
            tx(20, vec![], vec![plain(0), carrying(&MINT_T)]),
        ],
    );
    assert_eq!(index.index_block(&first), Ok(()));
    index
}

fn minted_once() -> Index {
    let mut index = etched();
    let second = block(
        1,
        vec![
            tx(3, vec![], vec![plain(50)]),
            tx(4, vec![], vec![plain(0), carrying(&MINT_T)]),
            tx(5, vec![], vec![plain(0), carrying(&MINT_U)]),
        ],
    );
    assert_eq!(index.index_block(&second), Ok(()));
    index
}

fn minted_twice() -> Index {
    let mut index = minted_once();
    let third = block(
        2,
        vec![
            tx(6, vec![], vec![plain(25)]),
            tx(7, vec![op(4, 0)], vec![plain(0), plain(0), carrying(&MINT_T_AND_MOVE)]),
            tx(8, vec![], vec![plain(0), carrying(&MINT_T)]),
        ],
    );
    assert_eq!(index.index_block(&third), Ok(()));
    index
}

fn past_the_end() -> Index {
    let mut index = minted_twice();
    let fourth = block(
        3,
        vec![
            tx(9, vec![], vec![plain(25)]),
            tx(10, vec![op(7, 0)], vec![plain(0), plain(0), carrying(&MINT_T_AND_MOVE)]),
        ],
    );
    assert_eq!(index.index_block(&fourth), Ok(()));
    index
}

fn entry_t(supply: u128) -> TokenEntry {
    TokenEntry {
        name: Rune(27),
        divisibility: 2,
        symbol: Some('R'),
        supply,
        terms: Some(Terms { cap: 250, amount: 100, start: Some(1), end: Some(2) }),
        etching: txid(1),
    }
}

#[test]
fn etching_creates_the_token() {
    let index = etched();
    assert_eq!(index.token(t()), Some(entry_t(0)));
    assert_eq!(
        index.token(u()),
        Some(TokenEntry {
            name: Rune(701),
            divisibility: 0,
            symbol: None,
            supply: 0,
            terms: Some(Terms { cap: 1000, amount: 10, start: None, end: None }),
            etching: txid(2),
        })
    );
    assert_eq!(index.token(TokenId { height: 0, tx: 2 }), None);
    assert_eq!(index.token_named(Rune(27)), Some(t()));
    assert_eq!(index.token_named(Rune(701)), Some(u()));
    assert_eq!(index.token_named(Rune(28)), None);
}

#[test]
fn token_is_found_by_its_spaced_name() {
    let index = etched();
    assert_eq!(index.token_spelled("AB"), Ok(Some(t())));
    assert_eq!(index.token_spelled("A.B"), Ok(Some(t())));
    assert_eq!(index.token_spelled("A•B"), Ok(Some(t())));
    assert_eq!(index.token_spelled("Z.Z"), Ok(Some(u())));
    assert_eq!(index.token_spelled("AC"), Ok(None));
    assert_eq!(index.token_spelled("A..B"), Err(Error::DoubleSeparator));
    assert_eq!(index.token_spelled(".AB"), Err(Error::LeadingSeparator));
    assert_eq!(index.token_spelled("AB."), Err(Error::TrailingSeparator));
    assert_eq!(index.token_spelled("ab"), Err(Error::InvalidCharacter));
}

#[test]
fn mint_before_the_start_makes_nothing() {
    let index = etched();
    assert_eq!(index.balances_of(op(20, 0)), vec![]);
    assert_eq!(index.token(t()), Some(entry_t(0)));
}

#[test]
fn mint_within_the_window_raises_the_supply() {
    let index = minted_once();
    assert_eq!(index.token(t()), Some(entry_t(100)));
    assert_eq!(index.balances_of(op(4, 0)), vec![of(t(), 100)]);
    assert_eq!(index.balances_of(op(4, 1)), vec![]);
    assert_eq!(index.balances_of(op(5, 0)), vec![of(u(), 10)]);
    assert_eq!(index.token(u()).unwrap().supply, 10);
}

#[test]
fn mint_goes_where_the_edicts_send_it() {
    let index = minted_twice();
    assert_eq!(index.token(t()), Some(entry_t(200)));
    assert_eq!(index.balances_of(op(4, 0)), vec![]);
    assert_eq!(index.balances_of(op(7, 0)), vec![of(t(), 170)]);
    assert_eq!(index.balances_of(op(7, 1)), vec![of(t(), 30)]);
    assert_eq!(index.balances_of(op(7, 2)), vec![]);
}

#[test]
fn mint_beyond_the_cap_makes_nothing() {
    let index = minted_twice();
    assert_eq!(index.balances_of(op(8, 0)), vec![]);
    assert_eq!(index.token(t()).unwrap().supply, 200);
}

#[test]
fn mint_past_the_end_is_a_no_op_and_the_edicts_still_apply() {
    let before = minted_twice();
    let index = past_the_end();
    assert_eq!(index.token(t()), before.token(t()));
    assert_eq!(index.token(t()), Some(entry_t(200)));
    assert_eq!(index.balances_of(op(7, 0)), vec![]);
    assert_eq!(index.balances_of(op(10, 0)), vec![of(t(), 140)]);
    assert_eq!(index.balances_of(op(10, 1)), vec![of(t(), 30)]);
    assert_eq!(index.balances_of(op(7, 1)), vec![of(t(), 30)]);
    assert_eq!(index.balances_of(op(5, 0)), vec![of(u(), 10)]);
}

#[test]
fn cenotaph_burns_what_the_inputs_hold_of_the_tokens_it_names() {
    let mut index = past_the_end();
    let fifth = block(
        4,
        vec![
            tx(11, vec![], vec![plain(12)]),
            tx(
                12,
                vec![op(10, 0), op(5, 0), op(10, 1)],
                vec![carrying(&[0, 0, 0, 5, 1, 9]), plain(0), plain(0)],
            ),
        ],
    );
    assert_eq!(index.index_block(&fifth), Ok(()));
    assert_eq!(index.balances_of(op(12, 0)), vec![]);
    assert_eq!(index.balances_of(op(12, 1)), vec![of(u(), 10)]);
    assert_eq!(index.balances_of(op(12, 2)), vec![]);
    assert_eq!(index.balances_of(op(10, 0)), vec![]);
    assert_eq!(index.balances_of(op(10, 1)), vec![]);
    assert_eq!(index.balances_of(op(5, 0)), vec![]);
    assert_eq!(index.balances_of(op(7, 1)), vec![of(t(), 30)]);
    assert_eq!(index.token(t()), Some(entry_t(200)));
}

#[test]
fn rollback_restores_tokens_and_balances() {
    let mut index = past_the_end();
    index.rollback_to(2);
    let again = minted_twice();
    assert_eq!(index.token(t()), again.token(t()));
    for outpoint in [op(4, 0), op(5, 0), op(7, 0), op(7, 1), op(8, 0), op(10, 0), op(10, 1)] {
        assert_eq!(index.balances_of(outpoint), again.balances_of(outpoint));
    }
    assert_eq!(index.store().len(), again.store().len());
    index.rollback_to(0);
    assert_eq!(index.token(t()), Some(entry_t(0)));
    assert_eq!(index.balances_of(op(4, 0)), vec![]);
    index.truncate(0);
    assert_eq!(index.token(t()), None);
    assert_eq!(index.token_named(Rune(27)), None);
}

#[test]
fn name_that_is_taken_is_not_etched_again() {
    let mut index = etched();
    let second = block(
        1,
        vec![
            tx(3, vec![], vec![plain(50)]),
            tx(4, vec![], vec![plain(0), carrying(&[1, 1, 2, 27, 3, 7])]),
        ],
    );
    assert_eq!(index.index_block(&second), Ok(()));
    assert_eq!(index.token(TokenId { height: 1, tx: 1 }), None);
    assert_eq!(index.token_named(Rune(27)), Some(t()));
    assert_eq!(index.token(t()), Some(entry_t(0)));
}

#[test]
fn tokens_are_listed_last_issued_first() {
    let mut index = etched();
    let second = block(
        1,
        vec![
            tx(3, vec![], vec![plain(50)]),
            tx(4, vec![], vec![]),
            tx(5, vec![], vec![carrying(&[1, 1, 2, 5])]),
            tx(6, vec![], vec![carrying(&[1, 1, 2, 6])]),
        ],
    );
    assert_eq!(index.index_block(&second), Ok(()));
    let third = block(2, vec![tx(7, vec![], vec![carrying(&[1, 1, 2, 7])])]);
    assert_eq!(index.index_block(&third), Ok(()));
    let id = |height: u64, tx: u32| TokenId { height, tx };
    assert_eq!(
        index.tokens_before(None, 10),
        vec![id(2, 0), id(1, 3), id(1, 2), id(0, 1), id(0, 0)]
    );
    assert_eq!(index.tokens_before(None, 5), vec![id(2, 0), id(1, 3), id(1, 2), id(0, 1), id(0, 0)]);
    assert_eq!(index.tokens_before(None, 2), vec![id(2, 0), id(1, 3)]);
    assert_eq!(index.tokens_before(Some(id(1, 3)), 2), vec![id(1, 2), id(0, 1)]);
    assert_eq!(index.tokens_before(Some(id(0, 1)), 2), vec![id(0, 0)]);
    assert_eq!(index.tokens_before(Some(id(0, 0)), 2), vec![]);
    assert_eq!(index.tokens_before(Some(id(1, 0)), 9), vec![id(0, 1), id(0, 0)]);
    assert_eq!(index.tokens_before(None, 0), vec![]);
}

fn seeded() -> Store {
    let mut store = Store::new();
    let v = TokenId { height: 3, tx: 3 };
    store.put(Key::Balances(op(1, 0)), Some(Value::Balances(vec![of(t(), 50), of(u(), 5)])));
    store.put(Key::Balances(op(2, 0)), Some(Value::Balances(vec![of(t(), 7), of(v, 3)])));
    store
}

#[test]
fn cenotaph_burns_each_token_it_names_and_no_other() {
    let v = TokenId { height: 3, tx: 3 };
    let mut store = seeded();
    let mut log: Vec<Change> = Vec::new();
    let spend = tx(9, vec![op(1, 0), op(2, 0)], vec![plain(0), plain(0)]);
    let cenotaph = Instruction::Cenotaph { tokens: vec![t(), v, t()] };
    index_transaction_tokens(&mut store, &mut log, TokenId { height: 9, tx: 1 }, &spend, &cenotaph);
    assert_eq!(store.get(&Key::Balances(op(1, 0))), None);
    assert_eq!(store.get(&Key::Balances(op(2, 0))), None);
    assert_eq!(store.get(&Key::Balances(op(9, 0))), Some(&Value::Balances(vec![of(u(), 5)])));
    assert_eq!(store.get(&Key::Balances(op(9, 1))), None);
    undo(&mut store, log);
    assert_eq!(
        store.get(&Key::Balances(op(1, 0))),
        Some(&Value::Balances(vec![of(t(), 50), of(u(), 5)]))
    );
    assert_eq!(store.get(&Key::Balances(op(2, 0))), Some(&Value::Balances(vec![of(t(), 7), of(v, 3)])));
    assert_eq!(store.get(&Key::Balances(op(9, 0))), None);
    assert_eq!(store.len(), 2);
}

#[test]
fn without_a_message_balances_go_to_the_first_output() {
    let v = TokenId { height: 3, tx: 3 };
    let mut store = seeded();
    let mut log: Vec<Change> = Vec::new();
    let spend = tx(9, vec![op(2, 0), op(1, 0)], vec![plain(0), plain(0)]);
    index_transaction_tokens(
        &mut store,
        &mut log,
        TokenId { height: 9, tx: 1 },
        &spend,
        &Instruction::Absent,
    );
    assert_eq!(
        store.get(&Key::Balances(op(9, 0))),
        Some(&Value::Balances(vec![of(t(), 57), of(v, 3), of(u(), 5)]))
    );
    assert_eq!(store.get(&Key::Balances(op(9, 1))), None);
}

#[test]
fn edicts_move_what_the_inputs_held() {
    let mut store = seeded();
    let mut log: Vec<Change> = Vec::new();
    let spend = tx(9, vec![op(1, 0)], vec![plain(0), plain(0), plain(0)]);
    let edicts = Instruction::Edicts {
        edicts: vec![
            Edict { token: t(), amount: 20, output: 2 },
            Edict { token: u(), amount: 9, output: 1 },
            Edict { token: t(), amount: 3, output: 3 },
        ],
    };
    index_transaction_tokens(&mut store, &mut log, TokenId { height: 9, tx: 1 }, &spend, &edicts);
    assert_eq!(store.get(&Key::Balances(op(9, 0))), Some(&Value::Balances(vec![of(t(), 28)])));
    assert_eq!(
        store.get(&Key::Balances(op(9, 1))),
        Some(&Value::Balances(vec![of(u(), 5), of(t(), 1)]))
    );
    assert_eq!(store.get(&Key::Balances(op(9, 2))), Some(&Value::Balances(vec![of(t(), 21)])));
    assert_eq!(store.get(&Key::Balances(op(2, 0))), Some(&Value::Balances(vec![
        of(t(), 7),
        of(TokenId { height: 3, tx: 3 }, 3)
    ])));
}

#[test]
fn etching_out_of_bounds_creates_nothing() {
    let mut store = Store::new();
    let mut log: Vec<Change> = Vec::new();
    let id = TokenId { height: 9, tx: 1 };
    let etch = |divisibility: u8| Instruction::Etch {
        etching: Etching { name: Rune(4), divisibility, symbol: None, terms: None },
        edicts: vec![],
    };
    let carrier = tx(9, vec![], vec![plain(0)]);
    index_transaction_tokens(&mut store, &mut log, id, &carrier, &etch(39));
    assert_eq!(store.get(&Key::Token(id)), None);
    assert_eq!(store.get(&Key::Name(Rune(4))), None);
    assert_eq!(store.len(), 0);
    index_transaction_tokens(&mut store, &mut log, id, &carrier, &etch(38));
    assert_eq!(
        store.get(&Key::Token(id)),
        Some(&Value::Token(TokenEntry {
            name: Rune(4),
            divisibility: 38,
            symbol: None,
            supply: 0,
            terms: None,
            etching: txid(9),
        }))
    );
    assert_eq!(store.get(&Key::Name(Rune(4))), Some(&Value::Id(id)));
    assert_eq!(store.len(), 2);
}
