//! Unit numbers and how a transaction hands them from its inputs to its
//! outputs: first in, first out.

use vstd::prelude::*;
use std::collections::VecDeque;

verus! {

/// The units from `start` up to, but without, `end`.
#[derive(Copy, Clone, Debug, PartialEq, Eq, Structural, Hash)]
pub struct UnitRange {
    pub start: u64,
    pub end: u64,
}

impl UnitRange {
    /// A range holds at least one unit.
    pub open spec fn well_formed(self) -> bool {
        self.start < self.end
    }

    /// How many units the range holds.
    pub open spec fn size(self) -> nat {
        if self.start < self.end {
            (self.end - self.start) as nat
        } else {
            0
        }
    }

    /// The units of the range, in rising order.
    pub open spec fn units(self) -> Seq<nat> {
        Seq::new(self.size(), |i: int| (self.start + i) as nat)
    }

    /// How many units the range holds.
    pub fn len(&self) -> (count: u64)
        ensures
            count == self.size(),
    {
        if self.start < self.end {
            self.end - self.start
        } else {
            0
        }
    }
}

/// Whether every range of `pool` holds at least one unit.
pub open spec fn pool_wf(pool: Seq<UnitRange>) -> bool {
    forall|i: int| 0 <= i < pool.len() ==> (#[trigger] pool[i]).well_formed()
}

/// How many units the ranges of `pool` hold together.
pub open spec fn pool_size(pool: Seq<UnitRange>) -> nat
    decreases pool.len(),
{
    if pool.len() == 0 {
        0
    } else {
        pool[0].size() + pool_size(pool.skip(1))
    }
}

/// The units of `pool` in the order in which they leave it.
pub open spec fn pool_units(pool: Seq<UnitRange>) -> Seq<nat>
    decreases pool.len(),
{
    if pool.len() == 0 {
        Seq::empty()
    } else {
        pool[0].units() + pool_units(pool.skip(1))
    }
}

/// The first `count` units of `pool`, or all of them where it holds fewer:
/// whole ranges from the front, and the lower part of the range in which
/// the boundary falls.
pub open spec fn take_front(pool: Seq<UnitRange>, count: nat) -> Seq<UnitRange>
    decreases pool.len(),
{
    if count == 0 || pool.len() == 0 {
        Seq::empty()
    } else if pool[0].size() <= count {
        seq![pool[0]] + take_front(pool.skip(1), (count - pool[0].size()) as nat)
    } else {
        seq![(UnitRange { start: pool[0].start, end: (pool[0].start + count) as u64 })]
    }
}

/// What is left of `pool` once its first `count` units are gone: the upper
/// part of the range in which the boundary falls, and the ranges behind it.
pub open spec fn drop_front(pool: Seq<UnitRange>, count: nat) -> Seq<UnitRange>
    decreases pool.len(),
{
    if count == 0 || pool.len() == 0 {
        pool
    } else if pool[0].size() <= count {
        drop_front(pool.skip(1), (count - pool[0].size()) as nat)
    } else {
        seq![(UnitRange { start: (pool[0].start + count) as u64, end: pool[0].end })] + pool.skip(
            1,
        )
    }
}

/// The sum of the first `k` numbers of `values`.
pub open spec fn sum_before(values: Seq<u64>, k: int) -> nat
    decreases k,
{
    if k <= 0 {
        0
    } else {
        sum_before(values, k - 1) + values[k - 1] as nat
    }
}

/// The ranges that output `k` of a transaction receives: its outputs take
/// from the front of the pool in order, each as many units as its value,
/// as long as any are left.
pub open spec fn assigned(pool: Seq<UnitRange>, values: Seq<u64>, k: int) -> Seq<UnitRange> {
    take_front(drop_front(pool, sum_before(values, k)), values[k] as nat)
}

/// The ranges that no output of the transaction took.
pub open spec fn unassigned(pool: Seq<UnitRange>, values: Seq<u64>) -> Seq<UnitRange> {
    drop_front(pool, sum_before(values, values.len() as int))
}

/// The units of two pools laid end to end are the units of the first
/// followed by those of the second, and their sizes add up.
pub proof fn lemma_pool_concat(a: Seq<UnitRange>, b: Seq<UnitRange>)
    ensures
        pool_units(a + b) == pool_units(a) + pool_units(b),
        pool_size(a + b) == pool_size(a) + pool_size(b),
        pool_wf(a) && pool_wf(b) ==> pool_wf(a + b),
    decreases a.len(),
{
    if a.len() == 0 {
        assert(a + b =~= b);
        assert(pool_units(a) + pool_units(b) =~= pool_units(b));
    } else {
        assert((a + b).skip(1) =~= a.skip(1) + b);
        lemma_pool_concat(a.skip(1), b);
        assert(pool_units(a + b) =~= pool_units(a) + pool_units(b));
    }
}

/// A pool holds as many units as its size says.
pub proof fn lemma_pool_units_len(pool: Seq<UnitRange>)
    ensures
        pool_units(pool).len() == pool_size(pool),
    decreases pool.len(),
{
    if pool.len() > 0 {
        lemma_pool_units_len(pool.skip(1));
    }
}

/// Taking from the front of a pool splits its units in two without
/// changing their order: what is taken, then what is left. What is taken
/// is `count` units, or the whole pool where it holds fewer.
pub proof fn lemma_take_drop(pool: Seq<UnitRange>, count: nat)
    ensures
        pool_units(take_front(pool, count)) + pool_units(drop_front(pool, count)) == pool_units(
            pool,
        ),
        pool_size(take_front(pool, count)) + pool_size(drop_front(pool, count)) == pool_size(
            pool,
        ),
        pool_size(take_front(pool, count)) == if count <= pool_size(pool) {
            count
        } else {
            pool_size(pool)
        },
        pool_wf(pool) ==> pool_wf(take_front(pool, count)) && pool_wf(drop_front(pool, count)),
    decreases pool.len(),
{
    let taken = take_front(pool, count);
    let left = drop_front(pool, count);
    if count == 0 || pool.len() == 0 {
        assert(pool_units(taken) + pool_units(left) =~= pool_units(pool));
    } else if pool[0].size() <= count {
        let rest = pool.skip(1);
        let more = (count - pool[0].size()) as nat;
        lemma_take_drop(rest, more);
        assert(taken.skip(1) =~= take_front(rest, more));
        assert(pool_units(taken) + pool_units(left) =~= pool_units(pool));
    } else {
        let low = UnitRange { start: pool[0].start, end: (pool[0].start + count) as u64 };
        let high = UnitRange { start: (pool[0].start + count) as u64, end: pool[0].end };
        assert(taken.skip(1) =~= Seq::<UnitRange>::empty());
        assert(left.skip(1) =~= pool.skip(1));
        assert(low.units() + high.units() =~= pool[0].units());
        assert(pool_units(Seq::<UnitRange>::empty()) =~= Seq::<nat>::empty());
        assert(pool_size(Seq::<UnitRange>::empty()) == 0);
        assert(taken[0] == low && left[0] == high);
        assert(pool_units(taken) =~= low.units());
        assert(pool_size(taken) == low.size());
        assert(pool_size(left) == high.size() + pool_size(pool.skip(1)));
        assert(pool_units(taken) + pool_units(left) =~= pool_units(pool));
    }
}

/// Taking `a` units and then `b` more leaves what taking `a + b` at once
/// leaves.
pub proof fn lemma_drop_drop(pool: Seq<UnitRange>, a: nat, b: nat)
    ensures
        drop_front(drop_front(pool, a), b) == drop_front(pool, a + b),
    decreases pool.len(),
{
    if a == 0 || pool.len() == 0 {
        if pool.len() == 0 {
            assert(drop_front(pool, b) =~= pool);
        }
    } else if pool[0].size() <= a {
        lemma_drop_drop(pool.skip(1), (a - pool[0].size()) as nat, b);
    } else {
        let high = UnitRange { start: (pool[0].start + a) as u64, end: pool[0].end };
        let left = seq![high] + pool.skip(1);
        assert(left.skip(1) =~= pool.skip(1));
        assert(left[0] == high);
        if b == 0 {
        } else if high.size() <= b {
            assert(drop_front(left, b) == drop_front(pool.skip(1), (b - high.size()) as nat));
        } else {
            assert(drop_front(left, b) =~= drop_front(pool, a + b));
        }
    }
}

/// Takes `count` units from the front of `pool`, or all that it holds.
pub fn take_units(pool: &mut VecDeque<UnitRange>, count: u64) -> (taken: Vec<UnitRange>)
    ensures
        taken@ == take_front(old(pool)@, count as nat),
        final(pool)@ == drop_front(old(pool)@, count as nat),
{
    let mut taken: Vec<UnitRange> = Vec::new();
    let mut wanted = count;
    proof {
        lemma_take_drop(pool@, count as nat);
        assert(taken@ + take_front(pool@, wanted as nat) =~= take_front(pool@, count as nat));
    }
    while wanted > 0 && pool.len() > 0
        invariant
            taken@ + take_front(pool@, wanted as nat) == take_front(old(pool)@, count as nat),
            drop_front(pool@, wanted as nat) == drop_front(old(pool)@, count as nat),
        decreases pool@.len(), wanted,
    {
        let ghost before = pool@;
        let ghost had = taken@;
        let range = pool.pop_front().unwrap();
        assert(range == before[0]);
        assert(pool@ =~= before.skip(1));
        let size = range.len();
        if size <= wanted {
            taken.push(range);
            wanted = wanted - size;
            assert(taken@ + take_front(pool@, wanted as nat) =~= had + take_front(
                before,
                (wanted + size) as nat,
            ));
        } else {
            let low = UnitRange { start: range.start, end: range.start + wanted };
            let high = UnitRange { start: range.start + wanted, end: range.end };
            taken.push(low);
            pool.push_front(high);
            assert(pool@ =~= seq![high] + before.skip(1));
            assert(taken@ =~= had + take_front(before, wanted as nat));
            wanted = 0;
            assert(taken@ + take_front(pool@, 0) =~= taken@);
        }
    }
    proof {
        assert(take_front(pool@, wanted as nat) =~= Seq::<UnitRange>::empty());
        assert(taken@ + Seq::<UnitRange>::empty() =~= taken@);
        assert(drop_front(pool@, wanted as nat) =~= pool@);
    }
    taken
}

/// What a transaction does to the units it spends.
pub struct Assignment {
    /// For each output, in order, the ranges it now holds.
    pub outputs: Vec<Vec<UnitRange>>,
    /// The ranges that no output took: the transaction's fee.
    pub remainder: VecDeque<UnitRange>,
}

/// Hands the units of `pool` to outputs of the values in `values`: the
/// outputs take from the front of the pool, in order, each as many units as
/// its value. An output that finds the pool short takes what is left.
pub fn propagate(pool: VecDeque<UnitRange>, values: &Vec<u64>) -> (done: Assignment)
    ensures
        done.outputs@.len() == values@.len(),
        forall|k: int|
            0 <= k < values@.len() ==> (#[trigger] done.outputs@[k])@ == assigned(
                pool@,
                values@,
                k,
            ),
        done.remainder@ == unassigned(pool@, values@),
{
    let mut left = pool;
    let mut outputs: Vec<Vec<UnitRange>> = Vec::new();
    let mut k: usize = 0;
    while k < values.len()
        invariant
            k <= values@.len(),
            outputs@.len() == k,
            left@ == drop_front(pool@, sum_before(values@, k as int)),
            forall|j: int|
                0 <= j < k ==> (#[trigger] outputs@[j])@ == assigned(pool@, values@, j),
        decreases values@.len() - k,
    {
        proof {
            lemma_drop_drop(pool@, sum_before(values@, k as int), values@[k as int] as nat);
        }
        let taken = take_units(&mut left, values[k]);
        outputs.push(taken);
        k += 1;
    }
    Assignment { outputs, remainder: left }
}

} // verus!
