//! How the token amounts that a transaction frees are shared out among
//! its outputs.

use vstd::prelude::*;
use crate::message::Edict;
use crate::purse::amount_in;
use crate::purse::amount_of;
use crate::purse::credit;
use crate::purse::debit;
use crate::purse::deposit;
use crate::purse::merge;
use crate::purse::merged;
use crate::purse::smaller;
use crate::purse::withdraw;
use crate::token::Balance;
use crate::token::TokenId;

verus! {

/// The index of the first output that may hold tokens; the number of
/// outputs where none may.
pub open spec fn first_eligible(eligible: Seq<bool>) -> int
    decreases eligible.len(),
{
    if eligible.len() == 0 {
        0
    } else if eligible[0] {
        0
    } else {
        1 + first_eligible(eligible.skip(1))
    }
}

/// How many of the first `k` outputs may hold tokens.
pub open spec fn count_eligible(eligible: Seq<bool>, k: int) -> nat
    decreases k,
{
    if k <= 0 {
        0
    } else if eligible[k - 1] {
        count_eligible(eligible, k - 1) + 1
    } else {
        count_eligible(eligible, k - 1)
    }
}

/// The amounts of a transaction while its instruction is carried out.
pub struct Allocation {
    /// What the inputs freed and no edict has moved yet.
    pub unallocated: Seq<Balance>,
    /// What each output has received.
    pub outputs: Seq<Seq<Balance>>,
}

/// `outputs` with `amount` more of `token` for output `k`.
pub open spec fn credit_output(
    outputs: Seq<Seq<Balance>>,
    k: int,
    token: TokenId,
    amount: u128,
) -> Seq<Seq<Balance>> {
    outputs.update(k, credit(outputs[k], token, amount))
}

/// `outputs` with `share` more of `token` for each of the first `k`
/// outputs that may hold tokens.
pub open spec fn spread(
    outputs: Seq<Seq<Balance>>,
    eligible: Seq<bool>,
    token: TokenId,
    share: u128,
    k: int,
) -> Seq<Seq<Balance>>
    decreases k,
{
    if k <= 0 {
        outputs
    } else if eligible[k - 1] {
        credit_output(spread(outputs, eligible, token, share, k - 1), k - 1, token, share)
    } else {
        spread(outputs, eligible, token, share, k - 1)
    }
}

/// How much an edict moves: what it asks for, or what is left of the
/// token where that is less.
pub open spec fn moved(unallocated: Seq<Balance>, edict: Edict) -> u128 {
    smaller(edict.amount as nat, amount_of(unallocated, edict.token)) as u128
}

/// What one edict does. An edict for an output moves the amount there;
/// where that output carries the message, the amount is burned. An edict
/// for all outputs splits the amount evenly among the outputs that may
/// hold tokens; what the division leaves goes to the first of them. Any
/// other edict does nothing.
pub open spec fn apply_edict(state: Allocation, edict: Edict, eligible: Seq<bool>) -> Allocation {
    let count = eligible.len() as int;
    let amount = moved(state.unallocated, edict);
    let holders = count_eligible(eligible, count);
    if edict.output < count {
        Allocation {
            unallocated: debit(state.unallocated, edict.token, edict.amount),
            outputs: if eligible[edict.output as int] {
                credit_output(state.outputs, edict.output as int, edict.token, amount)
            } else {
                state.outputs
            },
        }
    } else if edict.output == count && holders > 0 {
        Allocation {
            unallocated: debit(state.unallocated, edict.token, edict.amount),
            outputs: credit_output(
                spread(
                    state.outputs,
                    eligible,
                    edict.token,
                    (amount as nat / holders) as u128,
                    count,
                ),
                first_eligible(eligible),
                edict.token,
                (amount as nat % holders) as u128,
            ),
        }
    } else {
        state
    }
}

/// What the edicts do, one after the other.
pub open spec fn apply_edicts(state: Allocation, edicts: Seq<Edict>, eligible: Seq<bool>)
    -> Allocation
    decreases edicts.len(),
{
    if edicts.len() == 0 {
        state
    } else {
        apply_edict(apply_edicts(state, edicts.drop_last(), eligible), edicts.last(), eligible)
    }
}

/// What the outputs hold in the end: what no edict has moved goes to the
/// first output that may hold tokens, and is burned where there is none.
pub open spec fn swept(state: Allocation, eligible: Seq<bool>) -> Seq<Seq<Balance>> {
    let first = first_eligible(eligible);
    if first < eligible.len() {
        state.outputs.update(first, merged(state.outputs[first], state.unallocated))
    } else {
        state.outputs
    }
}

/// As many empty purses as there are outputs.
pub open spec fn no_amounts(count: nat) -> Seq<Seq<Balance>> {
    Seq::new(count, |k: int| Seq::<Balance>::empty())
}

/// What the outputs of a transaction receive of the amounts in
/// `unallocated`, given its edicts.
pub open spec fn allocated(unallocated: Seq<Balance>, edicts: Seq<Edict>, eligible: Seq<bool>)
    -> Seq<Seq<Balance>> {
    swept(
        apply_edicts(
            Allocation { unallocated, outputs: no_amounts(eligible.len()) },
            edicts,
            eligible,
        ),
        eligible,
    )
}

/// The purses of `outputs` as mathematical values.
pub open spec fn purses(outputs: Seq<Vec<Balance>>) -> Seq<Seq<Balance>> {
    Seq::new(outputs.len(), |k: int| outputs[k]@)
}

/// The first eligible output is the first index that holds `true`.
pub proof fn lemma_first_eligible(eligible: Seq<bool>, at: int)
    requires
        0 <= at <= eligible.len(),
        forall|j: int| 0 <= j < at ==> !#[trigger] eligible[j],
        at < eligible.len() ==> eligible[at],
    ensures
        first_eligible(eligible) == at,
    decreases eligible.len(),
{
    if eligible.len() > 0 && at > 0 {
        let rest = eligible.skip(1);
        assert(!eligible[0]);
        assert forall|j: int| 0 <= j < at - 1 implies !#[trigger] rest[j] by {
            assert(rest[j] == eligible[j + 1]);
        }
        lemma_first_eligible(rest, at - 1);
    }
}

/// The first eligible output lies among the outputs or at their end, and
/// no output before it may hold tokens.
pub proof fn lemma_first_eligible_found(eligible: Seq<bool>)
    ensures
        0 <= first_eligible(eligible) <= eligible.len(),
        forall|j: int| 0 <= j < first_eligible(eligible) ==> !#[trigger] eligible[j],
        first_eligible(eligible) < eligible.len() ==> eligible[first_eligible(eligible)],
        first_eligible(eligible) < eligible.len() <==> count_eligible(
            eligible,
            eligible.len() as int,
        ) > 0,
    decreases eligible.len(),
{
    if eligible.len() > 0 {
        let init = eligible.drop_last();
        lemma_first_eligible_found(init);
        let at = first_eligible(init);
        assert(count_eligible(init, init.len() as int) == count_eligible(
            eligible,
            eligible.len() - 1,
        )) by {
            lemma_count_prefix(eligible, init, init.len() as int);
        }
        assert forall|j: int| 0 <= j < at implies !#[trigger] eligible[j] by {
            assert(eligible[j] == init[j]);
        }
        if at < init.len() {
            assert(eligible[at] == init[at]);
            lemma_first_eligible(eligible, at);
        } else if eligible.last() {
            lemma_first_eligible(eligible, eligible.len() - 1);
        } else {
            lemma_first_eligible(eligible, eligible.len() as int);
        }
    }
}

/// Counting looks at the outputs counted only.
pub proof fn lemma_count_prefix(a: Seq<bool>, b: Seq<bool>, k: int)
    requires
        k <= a.len(),
        k <= b.len(),
        forall|j: int| 0 <= j < k ==> a[j] == b[j],
    ensures
        count_eligible(a, k) == count_eligible(b, k),
    decreases k,
{
    if k > 0 {
        lemma_count_prefix(a, b, k - 1);
    }
}

/// The index of the first output that may hold tokens.
pub fn find_first_eligible(eligible: &Vec<bool>) -> (first: usize)
    ensures
        first == first_eligible(eligible@),
        first <= eligible@.len(),
{
    let mut first: usize = 0;
    while first < eligible.len() && !eligible[first]
        invariant
            first <= eligible@.len(),
            forall|j: int| 0 <= j < first ==> !#[trigger] eligible@[j],
        decreases eligible@.len() - first,
    {
        first += 1;
    }
    proof {
        lemma_first_eligible(eligible@, first as int);
    }
    first
}

/// How many outputs may hold tokens.
pub fn count_holders(eligible: &Vec<bool>) -> (count: usize)
    ensures
        count == count_eligible(eligible@, eligible@.len() as int),
{
    let mut count: usize = 0;
    let mut k: usize = 0;
    while k < eligible.len()
        invariant
            k <= eligible@.len(),
            count <= k,
            count == count_eligible(eligible@, k as int),
        decreases eligible@.len() - k,
    {
        if eligible[k] {
            count += 1;
        }
        k += 1;
    }
    count
}

/// Adds `amount` of `token` to the purse of output `k`.
fn pay(outputs: &mut Vec<Vec<Balance>>, k: usize, token: TokenId, amount: u128)
    requires
        k < old(outputs)@.len(),
    ensures
        purses(final(outputs)@) == credit_output(purses(old(outputs)@), k as int, token, amount),
        final(outputs)@.len() == old(outputs)@.len(),
{
    let mut purse: Vec<Balance> = Vec::new();
    let mut i: usize = 0;
    while i < outputs[k].len()
        invariant
            k < outputs@.len(),
            i <= outputs@[k as int]@.len(),
            purse@ == outputs@[k as int]@.take(i as int),
        decreases outputs@[k as int]@.len() - i,
    {
        purse.push(outputs[k][i]);
        i += 1;
        assert(purse@ =~= outputs@[k as int]@.take(i as int));
    }
    assert(outputs@[k as int]@.take(i as int) =~= outputs@[k as int]@);
    deposit(&mut purse, token, amount);
    outputs.set(k, purse);
    assert(purses(outputs@) =~= credit_output(purses(old(outputs)@), k as int, token, amount));
}

/// Carries out one edict.
fn carry_out(
    unallocated: &mut Vec<Balance>,
    outputs: &mut Vec<Vec<Balance>>,
    edict: Edict,
    eligible: &Vec<bool>,
)
    requires
        old(outputs)@.len() == eligible@.len(),
    ensures
        final(outputs)@.len() == eligible@.len(),
        (Allocation { unallocated: final(unallocated)@, outputs: purses(final(outputs)@) })
            == apply_edict(
            (Allocation { unallocated: old(unallocated)@, outputs: purses(old(outputs)@) }),
            edict,
            eligible@,
        ),
{
    let count = eligible.len();
    let target = edict.output as usize;
    if target < count {
        let amount = withdraw(unallocated, edict.token, edict.amount);
        if eligible[target] {
            pay(outputs, target, edict.token, amount);
        }
    } else if target == count {
        let holders = count_holders(eligible);
        if holders > 0 {
            let amount = withdraw(unallocated, edict.token, edict.amount);
            let share = amount / (holders as u128);
            let extra = amount % (holders as u128);
            let mut k: usize = 0;
            while k < count
                invariant
                    k <= count,
                    count == eligible@.len(),
                    outputs@.len() == count,
                    purses(outputs@) == spread(
                        purses(old(outputs)@),
                        eligible@,
                        edict.token,
                        share,
                        k as int,
                    ),
                decreases count - k,
            {
                if eligible[k] {
                    pay(outputs, k, edict.token, share);
                }
                k += 1;
            }
            proof {
                lemma_first_eligible_found(eligible@);
            }
            let first = find_first_eligible(eligible);
            pay(outputs, first, edict.token, extra);
        }
    }
}

/// Shares out the amounts in `unallocated` among as many outputs as
/// `eligible` has entries: the edicts first, in order, then what is left.
pub fn allocate(unallocated: Vec<Balance>, edicts: &Vec<Edict>, eligible: &Vec<bool>) -> (outputs:
    Vec<Vec<Balance>>)
    ensures
        outputs@.len() == eligible@.len(),
        purses(outputs@) == allocated(unallocated@, edicts@, eligible@),
{
    let mut left = unallocated;
    let mut outputs: Vec<Vec<Balance>> = Vec::new();
    let mut k: usize = 0;
    while k < eligible.len()
        invariant
            k <= eligible@.len(),
            outputs@.len() == k,
            purses(outputs@) == no_amounts(k as nat),
        decreases eligible@.len() - k,
    {
        let ghost before = outputs@;
        let purse: Vec<Balance> = Vec::new();
        outputs.push(purse);
        k += 1;
        assert forall|j: int| 0 <= j < k implies #[trigger] purses(outputs@)[j] == no_amounts(
            k as nat,
        )[j] by {
            if j < k - 1 {
                assert(outputs@[j] == before[j]);
                assert(purses(before)[j] == no_amounts((k - 1) as nat)[j]);
            }
        }
        assert(purses(outputs@) =~= no_amounts(k as nat));
    }
    let ghost start = Allocation { unallocated: unallocated@, outputs: no_amounts(eligible@.len()) };
    let mut i: usize = 0;
    while i < edicts.len()
        invariant
            i <= edicts@.len(),
            outputs@.len() == eligible@.len(),
            (Allocation { unallocated: left@, outputs: purses(outputs@) }) == apply_edicts(
                start,
                edicts@.take(i as int),
                eligible@,
            ),
        decreases edicts@.len() - i,
    {
        assert(edicts@.take(i + 1).drop_last() =~= edicts@.take(i as int));
        carry_out(&mut left, &mut outputs, edicts[i], eligible);
        i += 1;
    }
    assert(edicts@.take(i as int) =~= edicts@);
    let first = find_first_eligible(eligible);
    if first < eligible.len() {
        let ghost before = purses(outputs@);
        let mut purse: Vec<Balance> = Vec::new();
        let mut j: usize = 0;
        while j < outputs[first].len()
            invariant
                first < outputs@.len(),
                j <= outputs@[first as int]@.len(),
                purse@ == outputs@[first as int]@.take(j as int),
            decreases outputs@[first as int]@.len() - j,
        {
            purse.push(outputs[first][j]);
            j += 1;
            assert(purse@ =~= outputs@[first as int]@.take(j as int));
        }
        assert(outputs@[first as int]@.take(j as int) =~= outputs@[first as int]@);
        merge(&mut purse, &left);
        outputs.set(first, purse);
        assert(purses(outputs@) =~= before.update(
            first as int,
            merged(before[first as int], left@),
        ));
    }
    outputs
}

} // verus!
