//! The tables of the index as one keyed store, and the record of changes
//! that lets a block be undone.

use vstd::prelude::*;
use crate::chain::OutPoint;
use crate::chain::TxId;
use crate::rune::Rune;
use crate::token::below;
use crate::token::earlier;
use crate::token::Balance;
use crate::token::TokenEntry;
use crate::token::TokenId;
use crate::units::UnitRange;

verus! {

/// What an entry of the store is about.
#[derive(Copy, Clone, Debug, PartialEq, Eq, Structural, Hash)]
pub enum Key {
    /// The unit ranges that an unspent output holds.
    Output(OutPoint),
    /// The token balances that an unspent output holds.
    Balances(OutPoint),
    /// What is known of a token.
    Token(TokenId),
    /// The token that bears a name.
    Name(Rune),
    /// The content bound to a unit.
    Inscription(u64),
}

/// What an entry of the store holds.
#[derive(Clone, Debug, PartialEq, Eq)]
pub enum Value {
    Ranges(Vec<UnitRange>),
    Balances(Vec<Balance>),
    Token(TokenEntry),
    Id(TokenId),
    Inscription(Inscription),
}

/// Content bound to a unit: the transaction that revealed it, its type
/// and its bytes.
#[derive(Clone, Debug, PartialEq, Eq)]
pub struct Inscription {
    pub id: TxId,
    pub content_type: Vec<u8>,
    pub body: Vec<u8>,
}

/// Content bound to a unit, as a mathematical value.
pub struct InscriptionView {
    pub id: TxId,
    pub content_type: Seq<u8>,
    pub body: Seq<u8>,
}

impl View for Inscription {
    type V = InscriptionView;

    open spec fn view(&self) -> InscriptionView {
        InscriptionView { id: self.id, content_type: self.content_type@, body: self.body@ }
    }
}

/// What an entry of the store holds, as a mathematical value.
pub enum Item {
    Ranges(Seq<UnitRange>),
    Balances(Seq<Balance>),
    Token(TokenEntry),
    Id(TokenId),
    Inscription(InscriptionView),
}

impl View for Value {
    type V = Item;

    open spec fn view(&self) -> Item {
        match *self {
            Value::Ranges(ranges) => Item::Ranges(ranges@),
            Value::Balances(balances) => Item::Balances(balances@),
            Value::Token(entry) => Item::Token(entry),
            Value::Id(id) => Item::Id(id),
            Value::Inscription(inscription) => Item::Inscription(inscription@),
        }
    }
}

/// The mathematical value of what may be a value.
pub open spec fn item_of(value: Option<Value>) -> Option<Item> {
    match value {
        Some(v) => Some(v@),
        None => None,
    }
}

/// The map `map` with `key` set to `item`, or without `key` where `item`
/// is `None`.
pub open spec fn with(map: Map<Key, Item>, key: Key, item: Option<Item>) -> Map<Key, Item> {
    match item {
        Some(i) => map.insert(key, i),
        None => map.remove(key),
    }
}

/// A copy of `ranges`.
pub fn copy_ranges(ranges: &Vec<UnitRange>) -> (copy: Vec<UnitRange>)
    ensures
        copy@ == ranges@,
{
    let mut copy: Vec<UnitRange> = Vec::new();
    let mut i: usize = 0;
    while i < ranges.len()
        invariant
            i <= ranges@.len(),
            copy@ == ranges@.take(i as int),
        decreases ranges@.len() - i,
    {
        copy.push(ranges[i]);
        i += 1;
        assert(copy@ =~= ranges@.take(i as int));
    }
    assert(ranges@.take(i as int) =~= ranges@);
    copy
}

/// A copy of `balances`.
pub fn copy_balances(balances: &Vec<Balance>) -> (copy: Vec<Balance>)
    ensures
        copy@ == balances@,
{
    let mut copy: Vec<Balance> = Vec::new();
    let mut i: usize = 0;
    while i < balances.len()
        invariant
            i <= balances@.len(),
            copy@ == balances@.take(i as int),
        decreases balances@.len() - i,
    {
        copy.push(balances[i]);
        i += 1;
        assert(copy@ =~= balances@.take(i as int));
    }
    assert(balances@.take(i as int) =~= balances@);
    copy
}

/// A copy of `bytes`.
pub fn copy_bytes(bytes: &Vec<u8>) -> (copy: Vec<u8>)
    ensures
        copy@ == bytes@,
{
    let mut copy: Vec<u8> = Vec::new();
    let mut i: usize = 0;
    while i < bytes.len()
        invariant
            i <= bytes@.len(),
            copy@ == bytes@.take(i as int),
        decreases bytes@.len() - i,
    {
        copy.push(bytes[i]);
        i += 1;
        assert(copy@ =~= bytes@.take(i as int));
    }
    assert(bytes@.take(i as int) =~= bytes@);
    copy
}

impl Inscription {
    /// A copy of the inscription.
    pub fn copy(&self) -> (copy: Inscription)
        ensures
            copy@ == self@,
    {
        Inscription {
            id: self.id,
            content_type: copy_bytes(&self.content_type),
            body: copy_bytes(&self.body),
        }
    }
}

impl Value {
    /// A copy of the value.
    pub fn copy(&self) -> (copy: Value)
        ensures
            copy@ == self@,
    {
        match self {
            Value::Ranges(ranges) => Value::Ranges(copy_ranges(ranges)),
            Value::Balances(balances) => Value::Balances(copy_balances(balances)),
            Value::Token(entry) => Value::Token(*entry),
            Value::Id(id) => Value::Id(*id),
            Value::Inscription(inscription) => Value::Inscription(inscription.copy()),
        }
    }
}

/// One entry of the store.
pub struct Entry {
    pub key: Key,
    pub value: Value,
}

/// A keyed store in which no key occurs twice. Its view is the map from
/// each key to what it holds.
pub struct Store {
    entries: Vec<Entry>,
    model: Ghost<Map<Key, Item>>,
}

impl View for Store {
    type V = Map<Key, Item>;

    closed spec fn view(&self) -> Map<Key, Item> {
        self.model@
    }
}

impl Store {
    /// The entries and the map agree, and no key occurs twice.
    pub closed spec fn wf(&self) -> bool {
        &&& forall|i: int|
            0 <= i < self.entries@.len() ==> self.model@.contains_key(
                (#[trigger] self.entries@[i]).key,
            ) && self.model@[self.entries@[i].key] == self.entries@[i].value@
        &&& forall|k: Key| #[trigger]
            self.model@.contains_key(k) ==> exists|i: int|
                0 <= i < self.entries@.len() && (#[trigger] self.entries@[i]).key == k
        &&& forall|i: int, j: int|
            0 <= i < j < self.entries@.len() ==> (#[trigger] self.entries@[i]).key != (
            #[trigger] self.entries@[j]).key
    }

    /// A store without entries.
    pub fn new() -> (store: Store)
        ensures
            store.wf(),
            store@ == Map::<Key, Item>::empty(),
    {
        Store { entries: Vec::new(), model: Ghost(Map::empty()) }
    }

    /// How many entries the store holds.
    pub fn len(&self) -> (count: usize)
        requires
            self.wf(),
        ensures
            count == self@.len(),
            self@.dom().finite(),
    {
        proof {
            self.lemma_len(self.entries@.len() as int);
            assert(self.model@.dom() =~= Set::new(
                |k: Key|
                    exists|i: int|
                        0 <= i < self.entries@.len() && (#[trigger] self.entries@[i]).key == k,
            ));
        }
        self.entries.len()
    }

    /// The first `n` entries have `n` keys.
    proof fn lemma_len(&self, n: int)
        requires
            self.wf(),
            0 <= n <= self.entries@.len(),
        ensures
            Set::new(
                |k: Key| exists|i: int| 0 <= i < n && (#[trigger] self.entries@[i]).key == k,
            ).finite(),
            Set::new(
                |k: Key| exists|i: int| 0 <= i < n && (#[trigger] self.entries@[i]).key == k,
            ).len() == n,
        decreases n,
    {
        let keys = Set::new(
            |k: Key| exists|i: int| 0 <= i < n && (#[trigger] self.entries@[i]).key == k,
        );
        if n == 0 {
            assert(keys =~= Set::<Key>::empty());
        } else {
            self.lemma_len(n - 1);
            let fewer = Set::new(
                |k: Key| exists|i: int| 0 <= i < n - 1 && (#[trigger] self.entries@[i]).key == k,
            );
            let last = self.entries@[n - 1].key;
            assert(!fewer.contains(last));
            assert(keys =~= fewer.insert(last)) by {
                assert forall|k: Key| keys.contains(k) implies fewer.insert(last).contains(k) by {
                    let i = choose|i: int| 0 <= i < n && (#[trigger] self.entries@[i]).key == k;
                    if i < n - 1 {
                        assert(fewer.contains(k));
                    }
                }
                assert forall|k: Key| fewer.insert(last).contains(k) implies keys.contains(k) by {
                    if k == last {
                        assert(self.entries@[n - 1].key == k);
                    } else {
                        let i = choose|i: int|
                            0 <= i < n - 1 && (#[trigger] self.entries@[i]).key == k;
                        assert(self.entries@[i].key == k);
                    }
                }
            }
        }
    }

    /// Where the entry of `key` stands, if there is one.
    fn find(&self, key: &Key) -> (at: Option<usize>)
        requires
            self.wf(),
        ensures
            match at {
                Some(i) => i < self.entries@.len() && self.entries@[i as int].key == *key,
                None => !self@.contains_key(*key),
            },
    {
        let mut i: usize = 0;
        while i < self.entries.len()
            invariant
                i <= self.entries@.len(),
                forall|j: int| 0 <= j < i ==> (#[trigger] self.entries@[j]).key != *key,
            decreases self.entries@.len() - i,
        {
            if self.entries[i].key == *key {
                return Some(i);
            }
            i += 1;
        }
        None
    }

    /// What `key` holds, if anything.
    pub fn get(&self, key: &Key) -> (value: Option<&Value>)
        requires
            self.wf(),
        ensures
            match value {
                Some(v) => self@.contains_key(*key) && self@[*key] == v@,
                None => !self@.contains_key(*key),
            },
    {
        match self.find(key) {
            Some(i) => Some(&self.entries[i].value),
            None => None,
        }
    }

    /// Sets `key` to `value`, or removes it where `value` is `None`, and
    /// returns what it held before.
    pub fn put(&mut self, key: Key, value: Option<Value>) -> (before: Option<Value>)
        requires
            old(self).wf(),
        ensures
            final(self).wf(),
            final(self)@ == with(old(self)@, key, item_of(value)),
            item_of(before) == old(self)@.get(key),
    {
        let before = match self.find(&key) {
            Some(i) => {
                let entry = self.entries.remove(i);
                proof {
                    self.model@ = self.model@.remove(key);
                }
                assert(self.wf()) by {
                    let was = old(self).entries@;
                    assert forall|j: int| 0 <= j < self.entries@.len() implies self.model@.contains_key(
                        (#[trigger] self.entries@[j]).key,
                    ) && self.model@[self.entries@[j].key] == self.entries@[j].value@ by {
                        let from = if j < i { j } else { j + 1 };
                        assert(self.entries@[j] == was[from]);
                    }
                    assert forall|k: Key| #[trigger] self.model@.contains_key(k) implies exists|j: int|
                        0 <= j < self.entries@.len() && (#[trigger] self.entries@[j]).key == k by {
                        let from = choose|j: int| 0 <= j < was.len() && (#[trigger] was[j]).key == k;
                        let to = if from < i { from } else { from - 1 };
                        assert(self.entries@[to] == was[from]);
                    }
                    assert forall|a: int, b: int| 0 <= a < b < self.entries@.len() implies (
                    #[trigger] self.entries@[a]).key != (#[trigger] self.entries@[b]).key by {
                        let fa = if a < i { a } else { a + 1 };
                        let fb = if b < i { b } else { b + 1 };
                        assert(self.entries@[a] == was[fa]);
                        assert(self.entries@[b] == was[fb]);
                    }
                }
                Some(entry.value)
            },
            None => {
                assert(self.model@.remove(key) =~= self.model@);
                None
            },
        };
        let ghost middle = *self;
        assert(self@ == with(old(self)@, key, None));
        match value {
            Some(v) => {
                proof {
                    self.model@ = self.model@.insert(key, v@);
                }
                self.entries.push(Entry { key, value: v });
                assert(self.wf()) by {
                    assert forall|j: int| 0 <= j < self.entries@.len() implies self.model@.contains_key(
                        (#[trigger] self.entries@[j]).key,
                    ) && self.model@[self.entries@[j].key] == self.entries@[j].value@ by {
                        if j < middle.entries@.len() {
                            assert(self.entries@[j] == middle.entries@[j]);
                        }
                    }
                    assert forall|k: Key| #[trigger] self.model@.contains_key(k) implies exists|j: int|
                        0 <= j < self.entries@.len() && (#[trigger] self.entries@[j]).key == k by {
                        if k == key {
                            assert(self.entries@[self.entries@.len() - 1].key == k);
                        } else {
                            let j = choose|j: int|
                                0 <= j < middle.entries@.len() && (#[trigger] middle.entries@[j]).key
                                    == k;
                            assert(self.entries@[j] == middle.entries@[j]);
                        }
                    }
                    assert forall|a: int, b: int| 0 <= a < b < self.entries@.len() implies (
                    #[trigger] self.entries@[a]).key != (#[trigger] self.entries@[b]).key by {
                        assert(self.entries@[a] == middle.entries@[a]);
                        if b < middle.entries@.len() {
                            assert(self.entries@[b] == middle.entries@[b]);
                        }
                    }
                }
                assert(self@ =~= with(old(self)@, key, Some(v@)));
            },
            None => {},
        }
        before
    }
}

/// Whether the output `outpoint` holds the unit `unit` in `map`.
pub open spec fn holds(map: Map<Key, Item>, outpoint: OutPoint, unit: u64) -> bool {
    match map.get(Key::Output(outpoint)) {
        Some(Item::Ranges(ranges)) => exists|i: int|
            0 <= i < ranges.len() && (#[trigger] ranges[i]).start <= unit < ranges[i].end,
        _ => false,
    }
}

/// Whether `map` knows the token `id`.
pub open spec fn is_token(map: Map<Key, Item>, id: TokenId) -> bool {
    map.contains_key(Key::Token(id))
}

impl Store {
    /// An output that holds the unit `unit`, if any does.
    #[verifier::loop_isolation(false)]
    pub fn output_holding(&self, unit: u64) -> (found: Option<OutPoint>)
        requires
            self.wf(),
        ensures
            match found {
                Some(outpoint) => holds(self@, outpoint, unit),
                None => forall|outpoint: OutPoint| !holds(self@, outpoint, unit),
            },
    {
        let mut i: usize = 0;
        while i < self.entries.len()
            invariant
                i <= self.entries@.len(),
                self.wf(),
                forall|j: int|
                    0 <= j < i ==> ((#[trigger] self.entries@[j]).key matches Key::Output(
                        outpoint,
                    ) ==> !holds(self@, outpoint, unit)),
            decreases self.entries@.len() - i,
        {
            match (&self.entries[i].key, &self.entries[i].value) {
                (Key::Output(outpoint), Value::Ranges(ranges)) => {
                    let mut k: usize = 0;
                    while k < ranges.len()
                        invariant
                            k <= ranges@.len(),
                            forall|n: int|
                                0 <= n < k ==> !((#[trigger] ranges@[n]).start <= unit
                                    < ranges@[n].end),
                        decreases ranges@.len() - k,
                    {
                        if ranges[k].start <= unit && unit < ranges[k].end {
                            assert(self.entries@[i as int].key == Key::Output(*outpoint));
                            assert(self@[Key::Output(*outpoint)] == Item::Ranges(ranges@));
                            return Some(*outpoint);
                        }
                        k += 1;
                    }
                    assert(self.entries@[i as int].key == Key::Output(*outpoint));
                    assert(self@[Key::Output(*outpoint)] == Item::Ranges(ranges@));
                    assert(!holds(self@, *outpoint, unit));
                },
                (Key::Output(outpoint), _) => {
                    assert(self.entries@[i as int].key == Key::Output(*outpoint));
                    assert(self@[Key::Output(*outpoint)] == self.entries@[i as int].value@);
                    assert(!holds(self@, *outpoint, unit));
                },
                _ => {},
            }
            i += 1;
        }
        assert forall|outpoint: OutPoint| !holds(self@, outpoint, unit) by {
            if holds(self@, outpoint, unit) {
                let j = choose|j: int|
                    0 <= j < self.entries@.len() && (#[trigger] self.entries@[j]).key
                        == Key::Output(outpoint);
                assert(false);
            }
        }
        None
    }

    /// The last token in the order of issuance that stands before `bound`,
    /// if there is one.
    pub fn last_token_before(&self, bound: Option<TokenId>) -> (found: Option<TokenId>)
        requires
            self.wf(),
        ensures
            match found {
                Some(id) => is_token(self@, id) && below(id, bound) && forall|other: TokenId|
                    #[trigger] is_token(self@, other) && below(other, bound) ==> !earlier(
                        id,
                        other,
                    ),
                None => forall|other: TokenId| #[trigger]
                    is_token(self@, other) ==> !below(other, bound),
            },
    {
        let mut best: Option<TokenId> = None;
        let mut i: usize = 0;
        while i < self.entries.len()
            invariant
                i <= self.entries@.len(),
                self.wf(),
                best matches Some(id) ==> is_token(self@, id) && below(id, bound),
                forall|j: int|
                    0 <= j < i ==> ((#[trigger] self.entries@[j]).key matches Key::Token(other)
                        ==> (below(other, bound) ==> best is Some && !earlier(best->0, other))),
            decreases self.entries@.len() - i,
        {
            match &self.entries[i].key {
                Key::Token(id) => {
                    let within = match &bound {
                        Some(limit) => id.before(limit),
                        None => true,
                    };
                    let better = match &best {
                        Some(held) => held.before(id),
                        None => true,
                    };
                    assert(self.entries@[i as int].key == Key::Token(*id));
                    if within && better {
                        best = Some(*id);
                    }
                },
                _ => {},
            }
            i += 1;
        }
        proof {
            assert forall|other: TokenId| #[trigger] is_token(self@, other) && below(
                other,
                bound,
            ) implies best is Some && !earlier(best->0, other) by {
                let j = choose|j: int|
                    0 <= j < self.entries@.len() && (#[trigger] self.entries@[j]).key
                        == Key::Token(other);
                assert(self.entries@[j].key == Key::Token(other));
            }
        }
        best
    }
}

/// What one key held before a change: enough to undo the change.
pub struct Change {
    pub key: Key,
    pub before: Option<Value>,
}

/// The map that undoing the changes of `log`, last first, makes of `map`.
pub open spec fn reverted(map: Map<Key, Item>, log: Seq<Change>) -> Map<Key, Item>
    decreases log.len(),
{
    if log.len() == 0 {
        map
    } else {
        reverted(with(map, log.last().key, item_of(log.last().before)), log.drop_last())
    }
}

/// Sets `key` to `value` in `store`, or removes it, and notes in `log`
/// what the key held before. Returns a copy of that.
pub fn record(store: &mut Store, log: &mut Vec<Change>, key: Key, value: Option<Value>) -> (before:
    Option<Value>)
    requires
        old(store).wf(),
    ensures
        final(store).wf(),
        final(store)@ == with(old(store)@, key, item_of(value)),
        item_of(before) == old(store)@.get(key),
        reverted(final(store)@, final(log)@) == reverted(old(store)@, old(log)@),
{
    let before = store.put(key, value);
    let copy = match &before {
        Some(v) => Some(v.copy()),
        None => None,
    };
    log.push(Change { key, before });
    proof {
        assert(log@.drop_last() =~= old(log)@);
        assert(with(store@, key, item_of(log@.last().before)) =~= old(store)@);
    }
    copy
}

/// Undoes the changes of `log`, last first.
pub fn undo(store: &mut Store, log: Vec<Change>)
    requires
        old(store).wf(),
    ensures
        final(store).wf(),
        final(store)@ == reverted(old(store)@, log@),
{
    let mut rest = log;
    while rest.len() > 0
        invariant
            store.wf(),
            reverted(store@, rest@) == reverted(old(store)@, log@),
        decreases rest@.len(),
    {
        let ghost longer = rest@;
        let change = rest.pop().unwrap();
        assert(rest@ =~= longer.drop_last());
        store.put(change.key, change.before);
    }
}

} // verus!
