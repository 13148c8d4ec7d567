//! Laws of unit propagation: no unit is held twice.

use vstd::prelude::*;
use crate::chain::output_values;
use crate::chain::OutPoint;
use crate::chain::Transaction;
use crate::chain::TxId;
use crate::store::Item;
use crate::store::Key;
use crate::unit_index::held;
use crate::unit_index::inscribed;
use crate::unit_index::issuance_pool;
use crate::unit_index::settled;
use crate::unit_index::spent_map;
use crate::unit_index::spent_pool;
use crate::unit_index::unit_block;
use crate::unit_index::unit_step;
use crate::unit_index::unit_steps;
use crate::unit_index::UnitState;
use crate::units::assigned;
use crate::units::drop_front;
use crate::units::lemma_drop_drop;
use crate::units::sum_before;
use crate::units::take_front;
use crate::units::unassigned;
use crate::units::UnitRange;

verus! {

/// Whether some unit lies in both ranges.
pub open spec fn overlap(a: UnitRange, b: UnitRange) -> bool {
    a.start < a.end && b.start < b.end && a.start < b.end && b.start < a.end
}

/// Whether every unit of `a` lies in `b`.
pub open spec fn within(a: UnitRange, b: UnitRange) -> bool {
    b.start <= a.start && a.end <= b.end
}

/// Whether no unit lies in two ranges of `pool`.
pub open spec fn pool_disjoint(pool: Seq<UnitRange>) -> bool {
    forall|i: int, j: int|
        0 <= i < j < pool.len() ==> !overlap(#[trigger] pool[i], #[trigger] pool[j])
}

/// Whether no unit of `x` lies in a range of `pool`.
pub open spec fn apart_from_pool(x: UnitRange, pool: Seq<UnitRange>) -> bool {
    forall|j: int| 0 <= j < pool.len() ==> !overlap(x, #[trigger] pool[j])
}

/// Whether some range of `pool` holds every unit of `r`.
pub open spec fn has_cover(r: UnitRange, pool: Seq<UnitRange>) -> bool {
    exists|j: int| 0 <= j < pool.len() && within(r, #[trigger] pool[j])
}

/// Whether each range of `part` lies within a range of `pool`.
pub open spec fn covered(part: Seq<UnitRange>, pool: Seq<UnitRange>) -> bool {
    forall|i: int| 0 <= i < part.len() ==> has_cover(#[trigger] part[i], pool)
}

/// Whether every range of `pool` ends at or before `limit`.
pub open spec fn pool_below(pool: Seq<UnitRange>, limit: nat) -> bool {
    forall|j: int| 0 <= j < pool.len() ==> (#[trigger] pool[j]).end <= limit
}

/// A range that lies within a range of a pool shares no unit with what is
/// apart from the pool, and ends where the pool's ranges end at the latest.
pub proof fn lemma_cover_transfers(part: Seq<UnitRange>, pool: Seq<UnitRange>)
    requires
        covered(part, pool),
    ensures
        forall|x: UnitRange| #[trigger] apart_from_pool(x, pool) ==> apart_from_pool(x, part),
        forall|limit: nat| #[trigger] pool_below(pool, limit) ==> pool_below(part, limit),
{
    assert forall|x: UnitRange| #[trigger] apart_from_pool(x, pool) implies apart_from_pool(
        x,
        part,
    ) by {
        assert forall|i: int| 0 <= i < part.len() implies !overlap(x, #[trigger] part[i]) by {
            assert(has_cover(part[i], pool));
            let j = choose|j: int| 0 <= j < pool.len() && within(part[i], #[trigger] pool[j]);
            assert(!overlap(x, pool[j]));
        }
    }
    assert forall|limit: nat| #[trigger] pool_below(pool, limit) implies pool_below(
        part,
        limit,
    ) by {
        assert forall|i: int| 0 <= i < part.len() implies (#[trigger] part[i]).end <= limit by {
            assert(has_cover(part[i], pool));
            let j = choose|j: int| 0 <= j < pool.len() && within(part[i], #[trigger] pool[j]);
            assert(pool[j].end <= limit);
        }
    }
}

/// Splitting a pool at any unit keeps its ranges apart and within the
/// ranges they were cut from.
pub proof fn lemma_split_disjoint(pool: Seq<UnitRange>, count: nat)
    requires
        pool_disjoint(pool),
    ensures
        pool_disjoint(take_front(pool, count) + drop_front(pool, count)),
        covered(take_front(pool, count) + drop_front(pool, count), pool),
    decreases pool.len(),
{
    let parts = take_front(pool, count) + drop_front(pool, count);
    if count == 0 || pool.len() == 0 {
        assert(parts =~= pool);
        assert forall|i: int| 0 <= i < parts.len() implies has_cover(#[trigger] parts[i], pool) by {
            assert(within(parts[i], pool[i]));
        }
    } else if pool[0].size() <= count {
        let rest = pool.skip(1);
        let more = (count - pool[0].size()) as nat;
        assert(pool_disjoint(rest)) by {
            assert forall|i: int, j: int| 0 <= i < j < rest.len() implies !overlap(
                #[trigger] rest[i],
                #[trigger] rest[j],
            ) by {
                assert(rest[i] == pool[i + 1] && rest[j] == pool[j + 1]);
            }
        }
        lemma_split_disjoint(rest, more);
        let inner = take_front(rest, more) + drop_front(rest, more);
        assert(parts =~= seq![pool[0]] + inner);
        assert forall|i: int| 0 <= i < parts.len() implies has_cover(#[trigger] parts[i], pool) by {
            if i == 0 {
                assert(within(parts[i], pool[0]));
            } else {
                assert(parts[i] == inner[i - 1]);
                assert(has_cover(inner[i - 1], rest));
                let j = choose|j: int| 0 <= j < rest.len() && within(inner[i - 1], #[trigger] rest[j]);
                assert(rest[j] == pool[j + 1]);
                assert(within(parts[i], pool[j + 1]));
            }
        }
        assert forall|i: int, j: int| 0 <= i < j < parts.len() implies !overlap(
            #[trigger] parts[i],
            #[trigger] parts[j],
        ) by {
            assert(parts[j] == inner[j - 1]);
            if i == 0 {
                assert(has_cover(inner[j - 1], rest));
                let q = choose|q: int| 0 <= q < rest.len() && within(inner[j - 1], #[trigger] rest[q]);
                assert(rest[q] == pool[q + 1]);
                assert(!overlap(pool[0], pool[q + 1]));
            } else {
                assert(parts[i] == inner[i - 1]);
            }
        }
    } else {
        let low = UnitRange { start: pool[0].start, end: (pool[0].start + count) as u64 };
        let high = UnitRange { start: (pool[0].start + count) as u64, end: pool[0].end };
        assert(parts =~= seq![low, high] + pool.skip(1));
        assert forall|i: int| 0 <= i < parts.len() implies has_cover(#[trigger] parts[i], pool) by {
            if i <= 1 {
                assert(within(parts[i], pool[0]));
            } else {
                assert(parts[i] == pool[i - 1]);
                assert(within(parts[i], pool[i - 1]));
            }
        }
        assert forall|i: int, j: int| 0 <= i < j < parts.len() implies !overlap(
            #[trigger] parts[i],
            #[trigger] parts[j],
        ) by {
            if j >= 2 {
                assert(parts[j] == pool[j - 1]);
                if i >= 2 {
                    assert(parts[i] == pool[i - 1]);
                } else {
                    assert(!overlap(pool[0], pool[j - 1]));
                }
            }
        }
    }
}

/// In a pool whose ranges are apart, a part may be replaced by ranges cut
/// from it.
pub proof fn lemma_replace_tail(head: Seq<UnitRange>, tail: Seq<UnitRange>, cut: Seq<UnitRange>)
    requires
        pool_disjoint(head + tail),
        pool_disjoint(cut),
        covered(cut, tail),
    ensures
        pool_disjoint(head + cut),
        covered(head + cut, head + tail),
{
    let whole = head + tail;
    let next = head + cut;
    assert forall|i: int| 0 <= i < next.len() implies has_cover(#[trigger] next[i], whole) by {
        if i < head.len() {
            assert(within(next[i], whole[i]));
        } else {
            assert(next[i] == cut[i - head.len()]);
            assert(has_cover(cut[i - head.len()], tail));
            let j = choose|j: int|
                0 <= j < tail.len() && within(cut[i - head.len()], #[trigger] tail[j]);
            assert(whole[head.len() + j] == tail[j]);
            assert(within(next[i], whole[head.len() + j]));
        }
    }
    assert forall|i: int, j: int| 0 <= i < j < next.len() implies !overlap(
        #[trigger] next[i],
        #[trigger] next[j],
    ) by {
        if j < head.len() {
            assert(next[i] == whole[i] && next[j] == whole[j]);
        } else {
            assert(next[j] == cut[j - head.len()]);
            if i < head.len() {
                assert(has_cover(cut[j - head.len()], tail));
                let q = choose|q: int|
                    0 <= q < tail.len() && within(cut[j - head.len()], #[trigger] tail[q]);
                assert(whole[head.len() + q] == tail[q]);
                assert(next[i] == whole[i]);
                assert(!overlap(whole[i], whole[head.len() + q]));
            } else {
                assert(next[i] == cut[i - head.len()]);
            }
        }
    }
}

/// The ranges of the first `k` outputs of a transaction, output by output.
pub open spec fn all_assigned(pool: Seq<UnitRange>, values: Seq<u64>, k: int) -> Seq<UnitRange>
    decreases k,
{
    if k <= 0 {
        Seq::empty()
    } else {
        all_assigned(pool, values, k - 1) + assigned(pool, values, k - 1)
    }
}

/// Where the ranges of the inputs are apart, so are the ranges of the
/// first `k` outputs together with what is not yet handed out; and each of
/// them lies within a range of the inputs.
pub proof fn lemma_outputs_disjoint(pool: Seq<UnitRange>, values: Seq<u64>, k: int)
    requires
        pool_disjoint(pool),
        0 <= k <= values.len(),
    ensures
        pool_disjoint(all_assigned(pool, values, k) + drop_front(pool, sum_before(values, k))),
        covered(all_assigned(pool, values, k) + drop_front(pool, sum_before(values, k)), pool),
    decreases k,
{
    if k == 0 {
        assert(all_assigned(pool, values, k) + pool =~= pool);
        assert forall|i: int| 0 <= i < pool.len() implies has_cover(#[trigger] pool[i], pool) by {
            assert(within(pool[i], pool[i]));
        }
    } else {
        lemma_outputs_disjoint(pool, values, k - 1);
        let head = all_assigned(pool, values, k - 1);
        let tail = drop_front(pool, sum_before(values, k - 1));
        let cut = take_front(tail, values[k - 1] as nat) + drop_front(tail, values[k - 1] as nat);
        assert(pool_disjoint(tail)) by {
            assert forall|i: int, j: int| 0 <= i < j < tail.len() implies !overlap(
                #[trigger] tail[i],
                #[trigger] tail[j],
            ) by {
                assert((head + tail)[head.len() + i] == tail[i]);
                assert((head + tail)[head.len() + j] == tail[j]);
            }
        }
        lemma_split_disjoint(tail, values[k - 1] as nat);
        lemma_replace_tail(head, tail, cut);
        lemma_drop_drop(pool, sum_before(values, k - 1), values[k - 1] as nat);
        let next = all_assigned(pool, values, k) + drop_front(pool, sum_before(values, k));
        assert(next =~= head + cut);
        assert forall|i: int| 0 <= i < next.len() implies has_cover(#[trigger] next[i], pool) by {
            assert(has_cover(next[i], head + tail));
            let j = choose|j: int|
                0 <= j < (head + tail).len() && within(next[i], #[trigger] (head + tail)[j]);
            assert(has_cover((head + tail)[j], pool));
            let q = choose|q: int| 0 <= q < pool.len() && within((head + tail)[j], #[trigger] pool[q]);
            assert(within(next[i], pool[q]));
        }
    }
}

/// The ranges that `key` holds in `map`; none where it holds no ranges.
pub open spec fn ranges_at(map: Map<Key, Item>, key: Key) -> Seq<UnitRange> {
    match map.get(key) {
        Some(Item::Ranges(ranges)) => ranges,
        _ => Seq::empty(),
    }
}

/// Whether no unit of `x` is held in `map`.
pub open spec fn apart_from_map(x: UnitRange, map: Map<Key, Item>) -> bool {
    forall|key: Key, i: int|
        0 <= i < ranges_at(map, key).len() ==> !overlap(x, #[trigger] ranges_at(map, key)[i])
}

/// Whether no unit is held twice in `map`: any two ranges, of two outputs
/// or of one, share no unit.
pub open spec fn units_unique(map: Map<Key, Item>) -> bool {
    forall|k1: Key, i1: int, k2: Key, i2: int|
        0 <= i1 < ranges_at(map, k1).len() && 0 <= i2 < ranges_at(map, k2).len() && (k1 != k2
            || i1 != i2) ==> !overlap(
            #[trigger] ranges_at(map, k1)[i1],
            #[trigger] ranges_at(map, k2)[i2],
        )
}

/// Whether every range held in `map` ends at or before `limit`.
pub open spec fn map_below(map: Map<Key, Item>, limit: nat) -> bool {
    forall|key: Key, i: int|
        0 <= i < ranges_at(map, key).len() ==> (#[trigger] ranges_at(map, key)[i]).end <= limit
}

/// Whether no unit of `pool` is held in `map`.
pub open spec fn map_apart(map: Map<Key, Item>, pool: Seq<UnitRange>) -> bool {
    forall|j: int| 0 <= j < pool.len() ==> apart_from_map(#[trigger] pool[j], map)
}

/// Whether each key of `part` holds the ranges it holds in `map`, or none.
pub open spec fn sub_ranges(part: Map<Key, Item>, map: Map<Key, Item>) -> bool {
    forall|key: Key|
        (#[trigger] ranges_at(part, key)).len() > 0 ==> ranges_at(part, key) == ranges_at(
            map,
            key,
        )
}

/// What holds of a map holds of a map that holds less.
pub proof fn lemma_sub_ranges(part: Map<Key, Item>, map: Map<Key, Item>)
    requires
        sub_ranges(part, map),
    ensures
        units_unique(map) ==> units_unique(part),
        forall|x: UnitRange| #[trigger] apart_from_map(x, map) ==> apart_from_map(x, part),
        forall|limit: nat| #[trigger] map_below(map, limit) ==> map_below(part, limit),
{
    if units_unique(map) {
        assert forall|k1: Key, i1: int, k2: Key, i2: int|
            0 <= i1 < ranges_at(part, k1).len() && 0 <= i2 < ranges_at(part, k2).len() && (k1
                != k2 || i1 != i2) implies !overlap(
            #[trigger] ranges_at(part, k1)[i1],
            #[trigger] ranges_at(part, k2)[i2],
        ) by {
            assert(ranges_at(part, k1) == ranges_at(map, k1));
            assert(ranges_at(part, k2) == ranges_at(map, k2));
            assert(!overlap(ranges_at(map, k1)[i1], ranges_at(map, k2)[i2]));
        }
    }
    assert forall|x: UnitRange| #[trigger] apart_from_map(x, map) implies apart_from_map(
        x,
        part,
    ) by {
        assert forall|key: Key, i: int| 0 <= i < ranges_at(part, key).len() implies !overlap(
            x,
            #[trigger] ranges_at(part, key)[i],
        ) by {
            assert(ranges_at(part, key) == ranges_at(map, key));
            assert(!overlap(x, ranges_at(map, key)[i]));
        }
    }
    assert forall|limit: nat| #[trigger] map_below(map, limit) implies map_below(
        part,
        limit,
    ) by {
        assert forall|key: Key, i: int| 0 <= i < ranges_at(part, key).len() implies (
        #[trigger] ranges_at(part, key)[i]).end <= limit by {
            assert(ranges_at(part, key) == ranges_at(map, key));
            assert(ranges_at(map, key)[i].end <= limit);
        }
    }
}

/// Spending outputs of a map in which no unit is held twice frees ranges
/// that are apart from each other and from what the map still holds.
pub proof fn lemma_spend(map: Map<Key, Item>, inputs: Seq<OutPoint>)
    requires
        units_unique(map),
    ensures
        sub_ranges(spent_map(map, inputs), map),
        units_unique(spent_map(map, inputs)),
        pool_disjoint(spent_pool(map, inputs)),
        map_apart(spent_map(map, inputs), spent_pool(map, inputs)),
        forall|x: UnitRange| #[trigger]
            apart_from_map(x, map) ==> apart_from_map(x, spent_map(map, inputs))
                && apart_from_pool(x, spent_pool(map, inputs)),
        forall|limit: nat| #[trigger]
            map_below(map, limit) ==> map_below(spent_map(map, inputs), limit) && pool_below(
                spent_pool(map, inputs),
                limit,
            ),
    decreases inputs.len(),
{
    let after = spent_map(map, inputs);
    let pool = spent_pool(map, inputs);
    if inputs.len() == 0 {
        lemma_sub_ranges(after, map);
    } else {
        let init = inputs.drop_last();
        lemma_spend(map, init);
        let mid = spent_map(map, init);
        let had = spent_pool(map, init);
        let key = Key::Output(inputs.last());
        let freed = ranges_at(mid, key);
        assert(freed == held(mid, inputs.last()));
        assert(after == mid.remove(key));
        assert(pool == had + freed);
        assert forall|k: Key| (#[trigger] ranges_at(after, k)).len() > 0 implies k != key
            && ranges_at(after, k) == ranges_at(mid, k) by {}
        assert(sub_ranges(after, mid));
        assert(sub_ranges(after, map)) by {
            assert forall|k: Key| (#[trigger] ranges_at(after, k)).len() > 0 implies ranges_at(
                after,
                k,
            ) == ranges_at(map, k) by {
                assert(ranges_at(after, k) == ranges_at(mid, k));
                assert(ranges_at(mid, k).len() > 0);
            }
        }
        lemma_sub_ranges(after, map);
        lemma_sub_ranges(after, mid);
        lemma_sub_ranges(mid, map);
        assert forall|i: int, j: int| 0 <= i < j < pool.len() implies !overlap(
            #[trigger] pool[i],
            #[trigger] pool[j],
        ) by {
            if j < had.len() {
                assert(pool[i] == had[i] && pool[j] == had[j]);
            } else {
                assert(pool[j] == freed[j - had.len()]);
                if i < had.len() {
                    assert(pool[i] == had[i]);
                    assert(apart_from_map(had[i], mid));
                    assert(!overlap(had[i], ranges_at(mid, key)[j - had.len()]));
                } else {
                    assert(pool[i] == freed[i - had.len()]);
                    assert(!overlap(
                        ranges_at(mid, key)[i - had.len()],
                        ranges_at(mid, key)[j - had.len()],
                    ));
                }
            }
        }
        assert forall|j: int| 0 <= j < pool.len() implies apart_from_map(
            #[trigger] pool[j],
            after,
        ) by {
            if j < had.len() {
                assert(pool[j] == had[j]);
                assert(apart_from_map(had[j], mid));
            } else {
                assert(pool[j] == freed[j - had.len()]);
                assert forall|k: Key, i: int| 0 <= i < ranges_at(after, k).len() implies !overlap(
                    pool[j],
                    #[trigger] ranges_at(after, k)[i],
                ) by {
                    assert(ranges_at(after, k) == ranges_at(mid, k));
                    assert(k != key);
                    assert(!overlap(ranges_at(mid, key)[j - had.len()], ranges_at(mid, k)[i]));
                }
            }
        }
        assert forall|x: UnitRange| #[trigger] apart_from_map(x, map) implies apart_from_map(
            x,
            after,
        ) && apart_from_pool(x, pool) by {
            assert(apart_from_map(x, mid) && apart_from_pool(x, had));
            assert forall|j: int| 0 <= j < pool.len() implies !overlap(x, #[trigger] pool[j]) by {
                if j < had.len() {
                    assert(pool[j] == had[j]);
                } else {
                    assert(pool[j] == ranges_at(mid, key)[j - had.len()]);
                }
            }
        }
        assert forall|limit: nat| #[trigger] map_below(map, limit) implies map_below(
            after,
            limit,
        ) && pool_below(pool, limit) by {
            assert(map_below(mid, limit) && pool_below(had, limit));
            assert forall|j: int| 0 <= j < pool.len() implies (#[trigger] pool[j]).end
                <= limit by {
                if j < had.len() {
                    assert(pool[j] == had[j]);
                } else {
                    assert(pool[j] == ranges_at(mid, key)[j - had.len()]);
                }
            }
        }
    }
}

/// Entering the first `k` outputs of a transaction keeps every unit held
/// once, where the ranges of those outputs are apart from each other, from
/// the ranges in `extra` and from what the map holds.
pub proof fn lemma_settle(
    map: Map<Key, Item>,
    txid: TxId,
    pool: Seq<UnitRange>,
    values: Seq<u64>,
    k: int,
    extra: Seq<UnitRange>,
)
    requires
        0 <= k <= values.len(),
        units_unique(map),
        pool_disjoint(all_assigned(pool, values, k) + extra),
        map_apart(map, all_assigned(pool, values, k) + extra),
    ensures
        units_unique(settled(map, txid, pool, values, k)),
        map_apart(settled(map, txid, pool, values, k), extra),
        forall|x: UnitRange|
            apart_from_map(x, map) && #[trigger] apart_from_pool(
                x,
                all_assigned(pool, values, k),
            ) ==> apart_from_map(x, settled(map, txid, pool, values, k)),
        forall|limit: nat|
            map_below(map, limit) && #[trigger] pool_below(all_assigned(pool, values, k), limit)
                ==> map_below(settled(map, txid, pool, values, k), limit),
    decreases k,
{
    let done = settled(map, txid, pool, values, k);
    let all = all_assigned(pool, values, k);
    if k == 0 {
        assert(all + extra =~= extra);
    } else {
        let head = all_assigned(pool, values, k - 1);
        let mine = assigned(pool, values, k - 1);
        let more = mine + extra;
        let mid = settled(map, txid, pool, values, k - 1);
        let key = Key::Output(OutPoint { txid, index: (k - 1) as u32 });
        assert(head + more =~= all + extra);
        lemma_settle(map, txid, pool, values, k - 1, more);
        assert(done == mid.insert(key, Item::Ranges(mine)));
        assert(ranges_at(done, key) == mine);
        assert forall|other: Key| other != key implies #[trigger] ranges_at(done, other)
            == ranges_at(mid, other) by {}
        assert forall|a: int, b: int| 0 <= a < b < more.len() implies !overlap(
            #[trigger] more[a],
            #[trigger] more[b],
        ) by {
            assert(more[a] == (head + more)[head.len() + a]);
            assert(more[b] == (head + more)[head.len() + b]);
        }
        assert forall|k1: Key, i1: int, k2: Key, i2: int|
            0 <= i1 < ranges_at(done, k1).len() && 0 <= i2 < ranges_at(done, k2).len() && (k1
                != k2 || i1 != i2) implies !overlap(
            #[trigger] ranges_at(done, k1)[i1],
            #[trigger] ranges_at(done, k2)[i2],
        ) by {
            if k1 == key && k2 == key {
                assert(more[i1] == mine[i1] && more[i2] == mine[i2]);
                if i1 < i2 {
                    assert(!overlap(more[i1], more[i2]));
                } else {
                    assert(!overlap(more[i2], more[i1]));
                }
            } else if k1 == key {
                assert(more[i1] == mine[i1]);
                assert(apart_from_map(more[i1], mid));
                assert(ranges_at(done, k2) == ranges_at(mid, k2));
                assert(!overlap(more[i1], ranges_at(mid, k2)[i2]));
            } else if k2 == key {
                assert(more[i2] == mine[i2]);
                assert(apart_from_map(more[i2], mid));
                assert(ranges_at(done, k1) == ranges_at(mid, k1));
                assert(!overlap(more[i2], ranges_at(mid, k1)[i1]));
            } else {
                assert(ranges_at(done, k1) == ranges_at(mid, k1));
                assert(ranges_at(done, k2) == ranges_at(mid, k2));
                assert(!overlap(ranges_at(mid, k1)[i1], ranges_at(mid, k2)[i2]));
            }
        }
        assert forall|j: int| 0 <= j < extra.len() implies apart_from_map(
            #[trigger] extra[j],
            done,
        ) by {
            assert(extra[j] == more[mine.len() + j]);
            assert(apart_from_map(more[mine.len() + j], mid));
            assert forall|other: Key, i: int| 0 <= i < ranges_at(done, other).len() implies !overlap(
                extra[j],
                #[trigger] ranges_at(done, other)[i],
            ) by {
                if other == key {
                    assert(mine[i] == more[i]);
                    assert(!overlap(more[i], more[mine.len() + j]));
                } else {
                    assert(ranges_at(done, other) == ranges_at(mid, other));
                    assert(!overlap(extra[j], ranges_at(mid, other)[i]));
                }
            }
        }
        assert forall|x: UnitRange|
            apart_from_map(x, map) && #[trigger] apart_from_pool(x, all) implies apart_from_map(
            x,
            done,
        ) by {
            assert forall|j: int| 0 <= j < head.len() implies !overlap(x, #[trigger] head[j]) by {
                assert(head[j] == all[j]);
            }
            assert(apart_from_pool(x, head));
            assert(apart_from_map(x, mid));
            assert forall|other: Key, i: int| 0 <= i < ranges_at(done, other).len() implies !overlap(
                x,
                #[trigger] ranges_at(done, other)[i],
            ) by {
                if other == key {
                    assert(mine[i] == all[head.len() + i]);
                } else {
                    assert(ranges_at(done, other) == ranges_at(mid, other));
                    assert(!overlap(x, ranges_at(mid, other)[i]));
                }
            }
        }
        assert forall|limit: nat|
            map_below(map, limit) && #[trigger] pool_below(all, limit) implies map_below(
            done,
            limit,
        ) by {
            assert forall|j: int| 0 <= j < head.len() implies (#[trigger] head[j]).end
                <= limit by {
                assert(head[j] == all[j]);
            }
            assert(pool_below(head, limit));
            assert(map_below(mid, limit));
            assert forall|other: Key, i: int| 0 <= i < ranges_at(done, other).len() implies (
            #[trigger] ranges_at(done, other)[i]).end <= limit by {
                if other == key {
                    assert(mine[i] == all[head.len() + i]);
                } else {
                    assert(ranges_at(done, other) == ranges_at(mid, other));
                    assert(ranges_at(mid, other)[i].end <= limit);
                }
            }
        }
    }
}

/// What a transaction's outputs do to a map in which no unit is held
/// twice, given a pool whose ranges are apart from each other and from the
/// map: every unit is still held once, and what is left of the pool is
/// apart from the map.
pub proof fn lemma_outputs_keep_unique(
    map: Map<Key, Item>,
    txid: TxId,
    pool: Seq<UnitRange>,
    values: Seq<u64>,
)
    requires
        units_unique(map),
        pool_disjoint(pool),
        map_apart(map, pool),
    ensures
        units_unique(settled(map, txid, pool, values, values.len() as int)),
        pool_disjoint(unassigned(pool, values)),
        map_apart(settled(map, txid, pool, values, values.len() as int), unassigned(pool, values)),
        forall|x: UnitRange|
            apart_from_map(x, map) && #[trigger] apart_from_pool(x, pool) ==> apart_from_map(
                x,
                settled(map, txid, pool, values, values.len() as int),
            ) && apart_from_pool(x, unassigned(pool, values)),
        forall|limit: nat|
            map_below(map, limit) && #[trigger] pool_below(pool, limit) ==> map_below(
                settled(map, txid, pool, values, values.len() as int),
                limit,
            ) && pool_below(unassigned(pool, values), limit),
{
    let n = values.len() as int;
    let all = all_assigned(pool, values, n);
    let left = unassigned(pool, values);
    let parts = all + left;
    let done = settled(map, txid, pool, values, n);
    lemma_outputs_disjoint(pool, values, n);
    lemma_cover_transfers(parts, pool);
    assert forall|j: int| 0 <= j < parts.len() implies apart_from_map(#[trigger] parts[j], map) by {
        assert(has_cover(parts[j], pool));
        let q = choose|q: int| 0 <= q < pool.len() && within(parts[j], #[trigger] pool[q]);
        assert(apart_from_map(pool[q], map));
        assert forall|key: Key, i: int| 0 <= i < ranges_at(map, key).len() implies !overlap(
            parts[j],
            #[trigger] ranges_at(map, key)[i],
        ) by {
            assert(!overlap(pool[q], ranges_at(map, key)[i]));
        }
    }
    lemma_settle(map, txid, pool, values, n, left);
    assert forall|a: int, b: int| 0 <= a < b < left.len() implies !overlap(
        #[trigger] left[a],
        #[trigger] left[b],
    ) by {
        assert(left[a] == parts[all.len() + a]);
        assert(left[b] == parts[all.len() + b]);
    }
    assert forall|x: UnitRange|
        apart_from_map(x, map) && #[trigger] apart_from_pool(x, pool) implies apart_from_map(
        x,
        done,
    ) && apart_from_pool(x, left) by {
        assert(apart_from_pool(x, parts));
        assert forall|j: int| 0 <= j < all.len() implies !overlap(x, #[trigger] all[j]) by {
            assert(all[j] == parts[j]);
        }
        assert(apart_from_pool(x, all));
        assert forall|j: int| 0 <= j < left.len() implies !overlap(x, #[trigger] left[j]) by {
            assert(left[j] == parts[all.len() + j]);
        }
    }
    assert forall|limit: nat|
        map_below(map, limit) && #[trigger] pool_below(pool, limit) implies map_below(
        done,
        limit,
    ) && pool_below(left, limit) by {
        assert(pool_below(parts, limit));
        assert forall|j: int| 0 <= j < all.len() implies (#[trigger] all[j]).end <= limit by {
            assert(all[j] == parts[j]);
        }
        assert(pool_below(all, limit));
        assert forall|j: int| 0 <= j < left.len() implies (#[trigger] left[j]).end <= limit by {
            assert(left[j] == parts[all.len() + j]);
        }
    }
}

/// Binding content to a unit changes no range.
pub proof fn lemma_inscribed_keeps_ranges(
    map: Map<Key, Item>,
    tx: Transaction,
    pool: Seq<UnitRange>,
)
    ensures
        sub_ranges(inscribed(map, tx, pool), map),
{
    let bound = inscribed(map, tx, pool);
    assert forall|key: Key| (#[trigger] ranges_at(bound, key)).len() > 0 implies ranges_at(
        bound,
        key,
    ) == ranges_at(map, key) by {}
}

/// What holds of the units while a block is indexed: no unit is held
/// twice, by outputs or among the fees; none of the units of `fresh` is
/// held; and every range ends at or before `limit`.
pub open spec fn units_sound(state: UnitState, fresh: UnitRange, limit: nat) -> bool {
    &&& units_unique(state.map)
    &&& pool_disjoint(state.fees)
    &&& map_apart(state.map, state.fees)
    &&& apart_from_map(fresh, state.map)
    &&& apart_from_pool(fresh, state.fees)
    &&& map_below(state.map, limit)
    &&& pool_below(state.fees, limit)
}

/// A transaction keeps the units sound.
pub proof fn lemma_step_keeps_sound(
    state: UnitState,
    tx: Transaction,
    fresh: UnitRange,
    limit: nat,
)
    requires
        units_sound(state, fresh, limit),
    ensures
        units_sound(unit_step(state, tx), fresh, limit),
{
    let map = state.map;
    let fees = state.fees;
    let pool = spent_pool(map, tx.inputs@);
    let mid = spent_map(map, tx.inputs@);
    let values = output_values(tx.outputs@);
    let left = unassigned(pool, values);
    let next = unit_step(state, tx);
    lemma_spend(map, tx.inputs@);
    let bound = inscribed(mid, tx, pool);
    lemma_inscribed_keeps_ranges(mid, tx, pool);
    lemma_sub_ranges(bound, mid);
    assert(map_apart(bound, pool)) by {
        assert forall|j: int| 0 <= j < pool.len() implies apart_from_map(
            #[trigger] pool[j],
            bound,
        ) by {
            assert(apart_from_map(pool[j], mid));
        }
    }
    lemma_outputs_keep_unique(bound, tx.txid, pool, values);
    assert(next.fees == fees + left);
    assert(apart_from_map(fresh, map));
    assert(apart_from_pool(fresh, pool));
    assert(map_below(map, limit));
    assert(pool_below(pool, limit));
    assert(apart_from_map(fresh, mid));
    assert(apart_from_map(fresh, bound));
    assert(map_below(mid, limit));
    assert(map_below(bound, limit));
    assert forall|i: int| 0 <= i < fees.len() implies apart_from_map(#[trigger] fees[i], next.map)
        && apart_from_pool(fees[i], left) by {
        assert(apart_from_map(fees[i], map));
        assert(apart_from_map(fees[i], mid));
        assert(apart_from_map(fees[i], bound));
        assert(apart_from_pool(fees[i], pool));
    }
    assert forall|a: int, b: int| 0 <= a < b < next.fees.len() implies !overlap(
        #[trigger] next.fees[a],
        #[trigger] next.fees[b],
    ) by {
        if b < fees.len() {
            assert(next.fees[a] == fees[a] && next.fees[b] == fees[b]);
        } else {
            assert(next.fees[b] == left[b - fees.len()]);
            if a < fees.len() {
                assert(next.fees[a] == fees[a]);
                assert(apart_from_pool(fees[a], left));
            } else {
                assert(next.fees[a] == left[a - fees.len()]);
            }
        }
    }
    assert forall|j: int| 0 <= j < next.fees.len() implies apart_from_map(
        #[trigger] next.fees[j],
        next.map,
    ) by {
        if j < fees.len() {
            assert(next.fees[j] == fees[j]);
        } else {
            assert(next.fees[j] == left[j - fees.len()]);
        }
    }
    assert forall|j: int| 0 <= j < next.fees.len() implies !overlap(
        fresh,
        #[trigger] next.fees[j],
    ) by {
        if j < fees.len() {
            assert(next.fees[j] == fees[j]);
        } else {
            assert(next.fees[j] == left[j - fees.len()]);
        }
    }
    assert forall|j: int| 0 <= j < next.fees.len() implies (#[trigger] next.fees[j]).end
        <= limit by {
        if j < fees.len() {
            assert(next.fees[j] == fees[j]);
        } else {
            assert(next.fees[j] == left[j - fees.len()]);
        }
    }
}

/// The transactions of a block keep the units sound.
pub proof fn lemma_steps_keep_sound(
    state: UnitState,
    txs: Seq<Transaction>,
    n: int,
    fresh: UnitRange,
    limit: nat,
)
    requires
        units_sound(state, fresh, limit),
        n <= txs.len(),
    ensures
        units_sound(unit_steps(state, txs, n), fresh, limit),
    decreases n,
{
    if n > 1 {
        lemma_steps_keep_sound(state, txs, n - 1, fresh, limit);
        lemma_step_keeps_sound(unit_steps(state, txs, n - 1), txs[n - 1], fresh, limit);
    }
}

/// The first unit that is beyond the range and beyond `limit`.
pub open spec fn limit_after(issued: UnitRange) -> nat {
    if issued.start < issued.end {
        issued.end as nat
    } else {
        issued.start as nat
    }
}

/// Units are held once and issued in rising order. Where no unit is held
/// twice and every unit held lies below the first unit that a block
/// issues, no unit is held twice after the block, whatever its
/// transactions, and every unit held lies below the first unit that the
/// block does not issue. The units that the block leaves unclaimed are
/// held by no output.
pub proof fn lemma_block_keeps_units_unique(
    map: Map<Key, Item>,
    txs: Seq<Transaction>,
    issued: UnitRange,
)
    requires
        units_unique(map),
        map_below(map, issued.start as nat),
    ensures
        units_unique(unit_block(map, txs, issued).map),
        map_below(unit_block(map, txs, issued).map, limit_after(issued)),
        pool_disjoint(unit_block(map, txs, issued).fees),
        map_apart(unit_block(map, txs, issued).map, unit_block(map, txs, issued).fees),
{
    let low = issued.start as nat;
    let high = limit_after(issued);
    let start = UnitState { map, fees: Seq::<UnitRange>::empty() };
    assert(apart_from_map(issued, map)) by {
        assert forall|key: Key, i: int| 0 <= i < ranges_at(map, key).len() implies !overlap(
            issued,
            #[trigger] ranges_at(map, key)[i],
        ) by {
            assert(ranges_at(map, key)[i].end <= low);
        }
    }
    assert(units_sound(start, issued, low));
    lemma_steps_keep_sound(start, txs, txs.len() as int, issued, low);
    let before = unit_steps(start, txs, txs.len() as int);
    let pool = issuance_pool(issued, before.fees);
    assert(map_below(before.map, high)) by {
        assert forall|key: Key, i: int| 0 <= i < ranges_at(before.map, key).len() implies (
        #[trigger] ranges_at(before.map, key)[i]).end <= high by {
            assert(ranges_at(before.map, key)[i].end <= low);
        }
    }
    assert(pool_below(pool, high)) by {
        assert forall|j: int| 0 <= j < pool.len() implies (#[trigger] pool[j]).end <= high by {
            if issued.start < issued.end {
                if j > 0 {
                    assert(pool[j] == before.fees[j - 1]);
                }
            } else {
                assert(pool[j] == before.fees[j]);
            }
        }
    }
    assert(pool_disjoint(pool)) by {
        assert forall|a: int, b: int| 0 <= a < b < pool.len() implies !overlap(
            #[trigger] pool[a],
            #[trigger] pool[b],
        ) by {
            if issued.start < issued.end {
                assert(pool[b] == before.fees[b - 1]);
                if a > 0 {
                    assert(pool[a] == before.fees[a - 1]);
                } else {
                    assert(!overlap(issued, before.fees[b - 1]));
                }
            }
        }
    }
    assert(map_apart(before.map, pool)) by {
        assert forall|j: int| 0 <= j < pool.len() implies apart_from_map(
            #[trigger] pool[j],
            before.map,
        ) by {
            if issued.start < issued.end {
                if j > 0 {
                    assert(pool[j] == before.fees[j - 1]);
                }
            } else {
                assert(pool[j] == before.fees[j]);
            }
        }
    }
    if txs.len() > 0 {
        let bound = inscribed(before.map, txs[0], pool);
        lemma_inscribed_keeps_ranges(before.map, txs[0], pool);
        lemma_sub_ranges(bound, before.map);
        assert(map_apart(bound, pool)) by {
            assert forall|j: int| 0 <= j < pool.len() implies apart_from_map(
                #[trigger] pool[j],
                bound,
            ) by {
                assert(apart_from_map(pool[j], before.map));
            }
        }
        assert(map_below(bound, high));
        lemma_outputs_keep_unique(bound, txs[0].txid, pool, output_values(txs[0].outputs@));
    } else {
        assert(before == start);
    }
}

} // verus!
