//! Reading the index. No query changes anything, and every query sees
//! whole blocks only: a block is in the index once it is committed.

use vstd::prelude::*;
use std::str::FromStr;
use crate::chain::OutPoint;
use crate::error::Error;
use crate::index::Index;
use crate::inscription_laws::inscription_on;
use crate::ledger::purse_at;
use crate::rune::Rune;
use crate::spaced_rune::parse_spaced;
use crate::spaced_rune::SpacedRune;
use crate::store::copy_balances;
use crate::store::copy_ranges;
use crate::store::holds;
use crate::store::is_token;
use crate::store::Inscription;
use crate::store::Item;
use crate::store::Key;
use crate::store::Value;
use crate::token::below;
use crate::token::earlier;
use crate::token::Balance;
use crate::token::TokenEntry;
use crate::token::TokenId;
use crate::unit_index::held;
use crate::unit_unique::overlap;
use crate::unit_unique::ranges_at;
use crate::unit_unique::units_unique;
use crate::units::UnitRange;

verus! {

/// What `map` knows of the token `id`.
pub open spec fn entry_of(map: Map<Key, Item>, id: TokenId) -> Option<TokenEntry> {
    match map.get(Key::Token(id)) {
        Some(Item::Token(entry)) => Some(entry),
        _ => None,
    }
}

/// The token that bears the name `name` in `map`.
pub open spec fn named_token(map: Map<Key, Item>, name: Rune) -> Option<TokenId> {
    match map.get(Key::Name(name)) {
        Some(Item::Id(id)) => Some(id),
        _ => None,
    }
}

/// Whether `page` lists the tokens of `map` that stand before `before`,
/// last issued first, up to `limit` of them: every entry is such a token,
/// each was issued before the one ahead of it, and a token that is missing
/// was issued before the last of a full page.
pub open spec fn is_page(
    map: Map<Key, Item>,
    before: Option<TokenId>,
    limit: nat,
    page: Seq<TokenId>,
) -> bool {
    &&& page.len() <= limit
    &&& forall|k: int|
        0 <= k < page.len() ==> is_token(map, #[trigger] page[k]) && below(page[k], before)
    &&& forall|j: int, k: int|
        0 <= j < k < page.len() ==> earlier(#[trigger] page[k], #[trigger] page[j])
    &&& forall|id: TokenId| #[trigger]
        is_token(map, id) && below(id, before) ==> page.contains(id) || (page.len() == limit && (
        limit == 0 || earlier(id, page.last())))
}

/// Where no unit is held twice, one output at most holds a unit.
pub proof fn lemma_one_holder(map: Map<Key, Item>, a: OutPoint, b: OutPoint, unit: u64)
    requires
        units_unique(map),
        holds(map, a, unit),
        holds(map, b, unit),
    ensures
        a == b,
{
    let first = ranges_at(map, Key::Output(a));
    let second = ranges_at(map, Key::Output(b));
    let i = choose|i: int| 0 <= i < first.len() && (#[trigger] first[i]).start <= unit < first[i].end;
    let j = choose|j: int|
        0 <= j < second.len() && (#[trigger] second[j]).start <= unit < second[j].end;
    assert(overlap(first[i], second[j]));
    if a != b {
        assert(Key::Output(a) != Key::Output(b));
        assert(!overlap(
            ranges_at(map, Key::Output(a))[i],
            ranges_at(map, Key::Output(b))[j],
        ));
    }
}

impl Index {
    /// The unit ranges that the output `outpoint` holds.
    pub fn ranges_of(&self, outpoint: OutPoint) -> (ranges: Vec<UnitRange>)
        requires
            self.wf(),
        ensures
            ranges@ == held(self@.map, outpoint),
    {
        match self.store().get(&Key::Output(outpoint)) {
            Some(Value::Ranges(ranges)) => copy_ranges(ranges),
            _ => Vec::new(),
        }
    }

    /// The token amounts that the output `outpoint` holds.
    pub fn balances_of(&self, outpoint: OutPoint) -> (purse: Vec<Balance>)
        requires
            self.wf(),
        ensures
            purse@ == purse_at(self@.map, outpoint),
    {
        match self.store().get(&Key::Balances(outpoint)) {
            Some(Value::Balances(purse)) => copy_balances(purse),
            _ => Vec::new(),
        }
    }

    /// The output that holds the unit `unit`, if it is held. No other
    /// output holds it.
    pub fn holder_of(&self, unit: u64) -> (holder: Option<OutPoint>)
        requires
            self.wf(),
        ensures
            match holder {
                Some(outpoint) => forall|other: OutPoint| #[trigger]
                    holds(self@.map, other, unit) <==> other == outpoint,
                None => forall|other: OutPoint| !holds(self@.map, other, unit),
            },
    {
        let found = self.store().output_holding(unit);
        proof {
            self.lemma_wf();
            match found {
                Some(outpoint) => {
                    assert forall|other: OutPoint| #[trigger]
                        holds(self@.map, other, unit) implies other == outpoint by {
                        lemma_one_holder(self@.map, other, outpoint, unit);
                    }
                },
                None => {},
            }
        }
        found
    }

    /// The content bound to the unit `unit`, if any is.
    pub fn inscription_of(&self, unit: u64) -> (inscription: Option<Inscription>)
        requires
            self.wf(),
        ensures
            match inscription {
                Some(found) => inscription_on(self@.map, unit) == Some(found@),
                None => inscription_on(self@.map, unit) is None,
            },
    {
        match self.store().get(&Key::Inscription(unit)) {
            Some(Value::Inscription(inscription)) => Some(inscription.copy()),
            _ => None,
        }
    }

    /// What the index knows of the token `id`.
    pub fn token(&self, id: TokenId) -> (entry: Option<TokenEntry>)
        requires
            self.wf(),
        ensures
            entry == entry_of(self@.map, id),
    {
        match self.store().get(&Key::Token(id)) {
            Some(Value::Token(entry)) => Some(*entry),
            _ => None,
        }
    }

    /// The token that bears the name `name`.
    pub fn token_named(&self, name: Rune) -> (id: Option<TokenId>)
        requires
            self.wf(),
        ensures
            id == named_token(self@.map, name),
    {
        match self.store().get(&Key::Name(name)) {
            Some(Value::Id(id)) => Some(*id),
            _ => None,
        }
    }

    /// The token whose name `text` spells in spaced notation; the error
    /// where `text` is no name.
    pub fn token_spelled(&self, text: &str) -> (id: Result<Option<TokenId>, Error>)
        requires
            self.wf(),
        ensures
            id == match parse_spaced(text@) {
                Ok(spaced) => Ok::<Option<TokenId>, Error>(named_token(self@.map, spaced.rune)),
                Err(error) => Err(error),
            },
    {
        match SpacedRune::from_str(text) {
            Ok(spaced) => Ok(self.token_named(spaced.rune)),
            Err(error) => Err(error),
        }
    }

    /// The tokens issued before `before`, or all where it is `None`: the
    /// last issued first, up to `limit` of them.
    pub fn tokens_before(&self, before: Option<TokenId>, limit: usize) -> (page: Vec<TokenId>)
        requires
            self.wf(),
        ensures
            is_page(self@.map, before, limit as nat, page@),
    {
        let store = self.store();
        let mut page: Vec<TokenId> = Vec::new();
        let mut bound = before;
        let mut done = false;
        while page.len() < limit && !done
            invariant
                store.wf(),
                store@ == self@.map,
                page@.len() <= limit,
                forall|k: int|
                    0 <= k < page@.len() ==> is_token(store@, #[trigger] page@[k]) && below(
                        page@[k],
                        before,
                    ),
                forall|j: int, k: int|
                    0 <= j < k < page@.len() ==> earlier(#[trigger] page@[k], #[trigger] page@[j]),
                page@.len() == 0 ==> bound == before,
                page@.len() > 0 ==> bound == Some(page@.last()),
                !done ==> forall|id: TokenId| #[trigger]
                    is_token(store@, id) && below(id, before) ==> page@.contains(id) || below(
                        id,
                        bound,
                    ),
                done ==> forall|id: TokenId| #[trigger]
                    is_token(store@, id) && below(id, before) ==> page@.contains(id),
            decreases limit - page@.len(), if done { 0int } else { 1int },
        {
            let ghost had = page@;
            match store.last_token_before(bound) {
                None => {
                    done = true;
                },
                Some(id) => {
                    page.push(id);
                    proof {
                        assert forall|other: TokenId| #[trigger]
                            is_token(store@, other) && below(other, before) implies page@.contains(
                            other,
                        ) || below(other, Some(id)) by {
                            if had.contains(other) {
                                let at = choose|at: int| 0 <= at < had.len() && had[at] == other;
                                assert(page@[at] == other);
                            } else if other == id {
                                assert(page@[page@.len() - 1] == other);
                            } else {
                                assert(below(other, bound));
                                assert(!earlier(id, other));
                            }
                        }
                        assert forall|j: int, k: int| 0 <= j < k < page@.len() implies earlier(
                            #[trigger] page@[k],
                            #[trigger] page@[j],
                        ) by {
                            if k == page@.len() - 1 {
                                if j < k - 1 {
                                    assert(earlier(had[k - 1], had[j]));
                                }
                            } else {
                                assert(page@[k] == had[k] && page@[j] == had[j]);
                            }
                        }
                    }
                    bound = Some(id);
                },
            }
        }
        page
    }
}

} // verus!
