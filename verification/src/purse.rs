//! Purses: amounts of tokens, one entry for each token.

use vstd::prelude::*;
use crate::token::Balance;
use crate::token::TokenId;

verus! {

/// Where the first entry of `token` stands in `purse`; the length of the
/// purse where it has none.
pub open spec fn position(purse: Seq<Balance>, token: TokenId) -> int
    decreases purse.len(),
{
    if purse.len() == 0 {
        0
    } else if purse[0].token == token {
        0
    } else {
        1 + position(purse.skip(1), token)
    }
}

/// How much of `token` the purse holds.
pub open spec fn amount_of(purse: Seq<Balance>, token: TokenId) -> nat {
    if position(purse, token) < purse.len() {
        purse[position(purse, token)].amount as nat
    } else {
        0
    }
}

/// Whether no token has two entries in `purse`.
pub open spec fn distinct(purse: Seq<Balance>) -> bool {
    forall|i: int, j: int|
        0 <= i < j < purse.len() ==> (#[trigger] purse[i]).token != (#[trigger] purse[j]).token
}

/// The sum of two amounts, or the largest amount where the sum is beyond
/// it.
pub open spec fn capped_sum(a: nat, b: nat) -> nat {
    if a + b <= u128::MAX {
        a + b
    } else {
        u128::MAX as nat
    }
}

/// The smaller of two amounts.
pub open spec fn smaller(a: nat, b: nat) -> nat {
    if a <= b {
        a
    } else {
        b
    }
}

/// `purse` with `amount` more of `token`. Nothing is entered for an amount
/// of zero.
pub open spec fn credit(purse: Seq<Balance>, token: TokenId, amount: u128) -> Seq<Balance> {
    let at = position(purse, token);
    if amount == 0 {
        purse
    } else if at < purse.len() {
        purse.update(
            at,
            Balance { token, amount: capped_sum(purse[at].amount as nat, amount as nat) as u128 },
        )
    } else {
        purse.push(Balance { token, amount })
    }
}

/// `purse` with `amount` less of `token`, or with none of it where it
/// holds less than `amount`.
pub open spec fn debit(purse: Seq<Balance>, token: TokenId, amount: u128) -> Seq<Balance> {
    let at = position(purse, token);
    if at < purse.len() {
        purse.update(
            at,
            Balance {
                token,
                amount: (purse[at].amount - smaller(amount as nat, purse[at].amount as nat)) as u128,
            },
        )
    } else {
        purse
    }
}

/// `purse` with every amount of `other` added.
pub open spec fn merged(purse: Seq<Balance>, other: Seq<Balance>) -> Seq<Balance>
    decreases other.len(),
{
    if other.len() == 0 {
        purse
    } else {
        credit(merged(purse, other.drop_last()), other.last().token, other.last().amount)
    }
}

/// The position of a token is the index of its first entry.
pub proof fn lemma_position(purse: Seq<Balance>, token: TokenId, at: int)
    requires
        0 <= at <= purse.len(),
        forall|j: int| 0 <= j < at ==> (#[trigger] purse[j]).token != token,
        at < purse.len() ==> purse[at].token == token,
    ensures
        position(purse, token) == at,
    decreases purse.len(),
{
    if purse.len() > 0 && at > 0 {
        let rest = purse.skip(1);
        assert(purse[0].token != token);
        assert forall|j: int| 0 <= j < at - 1 implies (#[trigger] rest[j]).token != token by {
            assert(rest[j] == purse[j + 1]);
        }
        lemma_position(rest, token, at - 1);
    }
}

/// The position of a token lies within the purse or at its end; before it
/// stands no entry of the token, and at it, if anywhere, the first.
pub proof fn lemma_position_found(purse: Seq<Balance>, token: TokenId)
    ensures
        0 <= position(purse, token) <= purse.len(),
        forall|j: int| 0 <= j < position(purse, token) ==> (#[trigger] purse[j]).token != token,
        position(purse, token) < purse.len() ==> purse[position(purse, token)].token == token,
    decreases purse.len(),
{
    if purse.len() > 0 && purse[0].token != token {
        let rest = purse.skip(1);
        lemma_position_found(rest, token);
        assert forall|j: int| 0 <= j < position(purse, token) implies (#[trigger] purse[j]).token
            != token by {
            if j > 0 {
                assert(purse[j] == rest[j - 1]);
            }
        }
    }
}

/// What a credit does to the amounts of a purse.
pub proof fn lemma_credit(purse: Seq<Balance>, token: TokenId, amount: u128, other: TokenId)
    ensures
        amount_of(credit(purse, token, amount), other) == if other == token {
            capped_sum(amount_of(purse, token), amount as nat)
        } else {
            amount_of(purse, other)
        },
        distinct(purse) ==> distinct(credit(purse, token, amount)),
{
    let next = credit(purse, token, amount);
    let at = position(purse, token);
    lemma_position_found(purse, token);
    lemma_position_found(purse, other);
    let was = position(purse, other);
    if amount != 0 {
        if at < purse.len() {
            assert forall|j: int| 0 <= j < was implies (#[trigger] next[j]).token != other by {
                assert(purse[j].token != other);
            }
            lemma_position(next, other, was);
        } else {
            if other == token {
                assert forall|j: int| 0 <= j < purse.len() implies (#[trigger] next[j]).token
                    != other by {
                    assert(purse[j].token != other);
                }
                lemma_position(next, other, purse.len() as int);
            } else {
                assert forall|j: int| 0 <= j < was implies (#[trigger] next[j]).token != other by {
                    assert(purse[j].token != other);
                }
                if was < purse.len() {
                    lemma_position(next, other, was);
                } else {
                    lemma_position(next, other, next.len() as int);
                }
            }
            if distinct(purse) {
                assert forall|i: int, j: int| 0 <= i < j < next.len() implies (
                #[trigger] next[i]).token != (#[trigger] next[j]).token by {
                    if j < purse.len() {
                        assert(next[i] == purse[i] && next[j] == purse[j]);
                    } else {
                        assert(next[i] == purse[i]);
                        assert(purse[i].token != token);
                    }
                }
            }
        }
    }
    if distinct(purse) && amount != 0 && at < purse.len() {
        assert forall|i: int, j: int| 0 <= i < j < next.len() implies (#[trigger] next[i]).token
            != (#[trigger] next[j]).token by {
            assert(next[i].token == purse[i].token);
            assert(next[j].token == purse[j].token);
        }
    }
}

/// What a debit does to the amounts of a purse.
pub proof fn lemma_debit(purse: Seq<Balance>, token: TokenId, amount: u128, other: TokenId)
    ensures
        amount_of(debit(purse, token, amount), other) == if other == token {
            (amount_of(purse, token) - smaller(amount as nat, amount_of(purse, token))) as nat
        } else {
            amount_of(purse, other)
        },
        distinct(purse) ==> distinct(debit(purse, token, amount)),
        debit(purse, token, amount).len() == purse.len(),
{
    let next = debit(purse, token, amount);
    let at = position(purse, token);
    lemma_position_found(purse, token);
    lemma_position_found(purse, other);
    let was = position(purse, other);
    if at < purse.len() {
        assert forall|j: int| 0 <= j < was implies (#[trigger] next[j]).token != other by {
            assert(purse[j].token != other);
        }
        lemma_position(next, other, was);
        if distinct(purse) {
            assert forall|i: int, j: int| 0 <= i < j < next.len() implies (
            #[trigger] next[i]).token != (#[trigger] next[j]).token by {
                assert(next[i].token == purse[i].token);
                assert(next[j].token == purse[j].token);
            }
        }
    }
}

/// Where the first entry of `token` stands in `purse`.
pub fn find_token(purse: &Vec<Balance>, token: TokenId) -> (at: usize)
    ensures
        at == position(purse@, token),
        at <= purse@.len(),
{
    let mut at: usize = 0;
    while at < purse.len() && !(purse[at].token == token)
        invariant
            at <= purse@.len(),
            forall|j: int| 0 <= j < at ==> (#[trigger] purse@[j]).token != token,
        decreases purse@.len() - at,
    {
        at += 1;
    }
    proof {
        lemma_position(purse@, token, at as int);
    }
    at
}

/// How much of `token` the purse holds.
pub fn amount_in(purse: &Vec<Balance>, token: TokenId) -> (amount: u128)
    ensures
        amount == amount_of(purse@, token),
{
    let at = find_token(purse, token);
    if at < purse.len() {
        purse[at].amount
    } else {
        0
    }
}

/// Adds `amount` of `token` to the purse.
pub fn deposit(purse: &mut Vec<Balance>, token: TokenId, amount: u128)
    ensures
        final(purse)@ == credit(old(purse)@, token, amount),
{
    if amount == 0 {
        return ;
    }
    let at = find_token(purse, token);
    if at < purse.len() {
        let sum = match purse[at].amount.checked_add(amount) {
            Some(sum) => sum,
            None => u128::MAX,
        };
        purse.set(at, Balance { token, amount: sum });
    } else {
        purse.push(Balance { token, amount });
    }
}

/// Takes `amount` of `token` out of the purse, or all that it holds of it,
/// and returns how much that was.
pub fn withdraw(purse: &mut Vec<Balance>, token: TokenId, amount: u128) -> (taken: u128)
    ensures
        taken == smaller(amount as nat, amount_of(old(purse)@, token)),
        final(purse)@ == debit(old(purse)@, token, amount),
{
    let at = find_token(purse, token);
    if at < purse.len() {
        let held = purse[at].amount;
        let taken = if amount <= held {
            amount
        } else {
            held
        };
        purse.set(at, Balance { token, amount: held - taken });
        taken
    } else {
        0
    }
}

/// Adds every amount of `other` to the purse.
pub fn merge(purse: &mut Vec<Balance>, other: &Vec<Balance>)
    ensures
        final(purse)@ == merged(old(purse)@, other@),
{
    let mut i: usize = 0;
    while i < other.len()
        invariant
            i <= other@.len(),
            purse@ == merged(old(purse)@, other@.take(i as int)),
        decreases other@.len() - i,
    {
        assert(other@.take(i + 1).drop_last() =~= other@.take(i as int));
        deposit(purse, other[i].token, other[i].amount);
        i += 1;
    }
    assert(other@.take(i as int) =~= other@);
}

} // verus!
