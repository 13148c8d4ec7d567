use ord::allocation::allocate;
use ord::message::Edict;
use ord::purse::amount_in;
use ord::purse::deposit;
use ord::purse::merge;
use ord::purse::withdraw;
use ord::token::Balance;
use ord::token::TokenId;

fn token(height: u64, tx: u32) -> TokenId {
    TokenId { height, tx }
}

fn amount(token: TokenId, amount: u128) -> Balance {
    Balance { token, amount }
}

fn edict(token: TokenId, amount: u128, output: u32) -> Edict {
    Edict { token, amount, output }
}

#[test]
fn purse_holds_one_entry_for_each_token() {
    let a = token(1, 0);
    let b = token(2, 5);
    let mut purse: Vec<Balance> = Vec::new();
    deposit(&mut purse, a, 5);
    deposit(&mut purse, b, 7);
    deposit(&mut purse, a, 6);
    deposit(&mut purse, b, 0);
    assert_eq!(purse, vec![amount(a, 11), amount(b, 7)]);
    assert_eq!(amount_in(&purse, a), 11);
    assert_eq!(amount_in(&purse, b), 7);
    assert_eq!(amount_in(&purse, token(3, 3)), 0);
}

#[test]
fn deposit_of_nothing_enters_nothing() {
    let mut purse: Vec<Balance> = Vec::new();
    deposit(&mut purse, token(1, 0), 0);
    assert_eq!(purse, vec![]);
}

#[test]
fn deposit_stops_at_the_largest_amount() {
    let a = token(1, 0);
    let mut purse = vec![amount(a, u128::MAX - 1)];
    deposit(&mut purse, a, 5);
    assert_eq!(purse, vec![amount(a, u128::MAX)]);
}

#[test]
fn withdraw_is_capped_to_what_is_there() {
    let a = token(1, 0);
    let mut purse = vec![amount(a, 10)];
    assert_eq!(withdraw(&mut purse, a, 4), 4);
    assert_eq!(purse, vec![amount(a, 6)]);
    assert_eq!(withdraw(&mut purse, a, 100), 6);
    assert_eq!(purse, vec![amount(a, 0)]);
    assert_eq!(withdraw(&mut purse, a, 1), 0);
    assert_eq!(withdraw(&mut purse, token(9, 9), 1), 0);
    assert_eq!(purse, vec![amount(a, 0)]);
}

#[test]
fn merge_adds_token_by_token() {
    let a = token(1, 0);
    let b = token(2, 0);
    let c = token(3, 0);
    let mut purse = vec![amount(a, 1), amount(b, 2)];
    merge(&mut purse, &vec![amount(c, 5), amount(a, 10), amount(b, 0)]);
    assert_eq!(purse, vec![amount(a, 11), amount(b, 2), amount(c, 5)]);
}

#[test]
fn what_no_edict_moves_goes_to_the_first_eligible_output() {
    let a = token(1, 0);
    let outputs = allocate(vec![amount(a, 10)], &vec![], &vec![false, true, true]);
    assert_eq!(outputs, vec![vec![], vec![amount(a, 10)], vec![]]);
}

#[test]
fn without_an_eligible_output_everything_is_burned() {
    let a = token(1, 0);
    let outputs = allocate(vec![amount(a, 10)], &vec![edict(a, 3, 0), edict(a, 3, 2)], &vec![false, false]);
    assert_eq!(outputs, vec![vec![], vec![]]);
    assert_eq!(allocate(vec![amount(a, 10)], &vec![], &vec![]), Vec::<Vec<Balance>>::new());
}

#[test]
fn edict_moves_its_amount_to_its_output() {
    let a = token(1, 0);
    let outputs = allocate(vec![amount(a, 10)], &vec![edict(a, 3, 1)], &vec![true, true]);
    assert_eq!(outputs, vec![vec![amount(a, 7)], vec![amount(a, 3)]]);
}

#[test]
fn edict_is_capped_to_what_is_available() {
    let a = token(1, 0);
    let outputs = allocate(
        vec![amount(a, 10)],
        &vec![edict(a, 500, 1), edict(a, 5, 2)],
        &vec![true, true, true],
    );
    assert_eq!(outputs, vec![vec![], vec![amount(a, 10)], vec![]]);
}

#[test]
fn edicts_apply_in_order() {
    let a = token(1, 0);
    let b = token(1, 1);
    let outputs = allocate(
        vec![amount(a, 10), amount(b, 4)],
        &vec![edict(a, 6, 2), edict(b, 1, 1), edict(a, 6, 1), edict(b, 9, 2)],
        &vec![true, true, true],
    );
    assert_eq!(
        outputs,
        vec![vec![], vec![amount(b, 1), amount(a, 4)], vec![amount(a, 6), amount(b, 3)]]
    );
}

#[test]
fn edict_for_an_unknown_token_moves_nothing() {
    let a = token(1, 0);
    let outputs = allocate(vec![amount(a, 10)], &vec![edict(token(7, 7), 5, 1)], &vec![true, true]);
    assert_eq!(outputs, vec![vec![amount(a, 10)], vec![]]);
}

#[test]
fn edict_for_the_output_that_carries_the_message_burns() {
    let a = token(1, 0);
    let outputs = allocate(vec![amount(a, 10)], &vec![edict(a, 4, 1)], &vec![true, false]);
    assert_eq!(outputs, vec![vec![amount(a, 6)], vec![]]);
}

#[test]
fn edict_for_an_output_that_is_not_there_does_nothing() {
    let a = token(1, 0);
    let outputs = allocate(vec![amount(a, 10)], &vec![edict(a, 4, 3)], &vec![true, true]);
    assert_eq!(outputs, vec![vec![amount(a, 10)], vec![]]);
}

#[test]
fn edict_for_all_outputs_splits_evenly_and_the_rest_goes_to_the_first() {
    let a = token(1, 0);
    let outputs = allocate(
        vec![amount(a, 10)],
        &vec![edict(a, 10, 4)],
        &vec![true, false, true, true],
    );
    assert_eq!(outputs, vec![vec![amount(a, 4)], vec![], vec![amount(a, 3)], vec![amount(a, 3)]]);
}

#[test]
fn edict_for_all_outputs_splits_no_more_than_it_asks_for() {
    let a = token(1, 0);
    let outputs = allocate(
        vec![amount(a, 100)],
        &vec![edict(a, 7, 3)],
        &vec![false, true, true],
    );
    assert_eq!(outputs, vec![vec![], vec![amount(a, 97)], vec![amount(a, 3)]]);
}

#[test]
fn edict_for_all_outputs_of_less_than_one_each_goes_to_the_first() {
    let a = token(1, 0);
    let outputs = allocate(vec![amount(a, 2)], &vec![edict(a, 2, 3)], &vec![true, true, true]);
    assert_eq!(outputs, vec![vec![amount(a, 2)], vec![], vec![]]);
}

#[test]
fn edict_for_all_outputs_is_capped_too() {
    let a = token(1, 0);
    let outputs = allocate(
        vec![amount(a, 9)],
        &vec![edict(a, u128::MAX, 2)],
        &vec![true, true],
    );
    assert_eq!(outputs, vec![vec![amount(a, 5)], vec![amount(a, 4)]]);
}
