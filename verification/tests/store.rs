use ord::chain::OutPoint;
use ord::chain::TxId;
use ord::rune::Rune;
use ord::store::record;
use ord::store::undo;
use ord::store::Change;
use ord::store::Key;
use ord::store::Store;
use ord::store::Value;
use ord::token::TokenId;
use ord::units::UnitRange;

fn out(n: u128) -> OutPoint {
    OutPoint { txid: TxId { high: 0, low: n }, index: 0 }
}

fn ranges(start: u64, end: u64) -> Value {
    Value::Ranges(vec![UnitRange { start, end }])
}

#[test]
fn store_holds_what_is_put() {
    let mut store = Store::new();
    assert_eq!(store.len(), 0);
    assert_eq!(store.get(&Key::Output(out(1))), None);
    assert_eq!(store.put(Key::Output(out(1)), Some(ranges(0, 5))), None);
    assert_eq!(store.put(Key::Output(out(2)), Some(ranges(5, 9))), None);
    assert_eq!(store.len(), 2);
    assert_eq!(store.get(&Key::Output(out(1))), Some(&ranges(0, 5)));
    assert_eq!(store.get(&Key::Output(out(2))), Some(&ranges(5, 9)));
    assert_eq!(store.get(&Key::Balances(out(1))), None);
}

#[test]
fn put_replaces_and_returns_what_was_there() {
    let mut store = Store::new();
    store.put(Key::Output(out(1)), Some(ranges(0, 5)));
    assert_eq!(store.put(Key::Output(out(1)), Some(ranges(7, 8))), Some(ranges(0, 5)));
    assert_eq!(store.len(), 1);
    assert_eq!(store.get(&Key::Output(out(1))), Some(&ranges(7, 8)));
    assert_eq!(store.put(Key::Output(out(1)), None), Some(ranges(7, 8)));
    assert_eq!(store.len(), 0);
    assert_eq!(store.put(Key::Output(out(1)), None), None);
}

#[test]
fn keys_of_different_kinds_are_different_keys() {
    let mut store = Store::new();
    let id = TokenId { height: 1, tx: 1 };
    store.put(Key::Output(out(1)), Some(ranges(0, 5)));
    store.put(Key::Balances(out(1)), Some(Value::Balances(vec![])));
    store.put(Key::Token(id), Some(Value::Id(id)));
    store.put(Key::Name(Rune(1)), Some(Value::Id(id)));
    assert_eq!(store.len(), 4);
    assert_eq!(store.get(&Key::Output(out(1))), Some(&ranges(0, 5)));
    assert_eq!(store.get(&Key::Balances(out(1))), Some(&Value::Balances(vec![])));
}

#[test]
fn undo_leads_back_change_by_change() {
    let mut store = Store::new();
    store.put(Key::Output(out(1)), Some(ranges(0, 5)));
    store.put(Key::Output(out(2)), Some(ranges(5, 9)));
    let mut log: Vec<Change> = Vec::new();
    assert_eq!(record(&mut store, &mut log, Key::Output(out(1)), None), Some(ranges(0, 5)));
    assert_eq!(record(&mut store, &mut log, Key::Output(out(3)), Some(ranges(0, 2))), None);
    assert_eq!(
        record(&mut store, &mut log, Key::Output(out(3)), Some(ranges(0, 3))),
        Some(ranges(0, 2))
    );
    assert_eq!(record(&mut store, &mut log, Key::Output(out(2)), Some(ranges(1, 2))), Some(ranges(5, 9)));
    assert_eq!(record(&mut store, &mut log, Key::Output(out(1)), Some(ranges(3, 5))), None);
    assert_eq!(log.len(), 5);
    assert_eq!(store.len(), 3);
    undo(&mut store, log);
    assert_eq!(store.len(), 2);
    assert_eq!(store.get(&Key::Output(out(1))), Some(&ranges(0, 5)));
    assert_eq!(store.get(&Key::Output(out(2))), Some(&ranges(5, 9)));
    assert_eq!(store.get(&Key::Output(out(3))), None);
}

#[test]
fn store_finds_the_output_that_holds_a_unit() {
    let mut store = Store::new();
    store.put(Key::Output(out(1)), Some(Value::Ranges(vec![
        UnitRange { start: 0, end: 5 },
        UnitRange { start: 20, end: 21 },
    ])));
    store.put(Key::Output(out(2)), Some(ranges(5, 9)));
    store.put(Key::Balances(out(3)), Some(ranges(9, 12)));
    assert_eq!(store.output_holding(0), Some(out(1)));
    assert_eq!(store.output_holding(4), Some(out(1)));
    assert_eq!(store.output_holding(5), Some(out(2)));
    assert_eq!(store.output_holding(20), Some(out(1)));
    assert_eq!(store.output_holding(9), None);
    assert_eq!(store.output_holding(21), None);
}

#[test]
fn store_finds_the_last_token_before_a_bound() {
    let mut store = Store::new();
    let id = |height: u64, tx: u32| TokenId { height, tx };
    assert_eq!(store.last_token_before(None), None);
    for token in [id(2, 1), id(0, 7), id(2, 0), id(5, 5)] {
        store.put(Key::Token(token), Some(Value::Id(token)));
    }
    assert_eq!(store.last_token_before(None), Some(id(5, 5)));
    assert_eq!(store.last_token_before(Some(id(5, 5))), Some(id(2, 1)));
    assert_eq!(store.last_token_before(Some(id(2, 1))), Some(id(2, 0)));
    assert_eq!(store.last_token_before(Some(id(2, 0))), Some(id(0, 7)));
    assert_eq!(store.last_token_before(Some(id(0, 7))), None);
    assert_eq!(store.last_token_before(Some(id(9, 0))), Some(id(5, 5)));
}
