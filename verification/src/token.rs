//! Tokens and what the index keeps of each.

use vstd::prelude::*;
use crate::chain::TxId;
use crate::rune::Rune;

verus! {

/// The identifier of a token: where its etching stands in the ledger.
/// Identifiers are ordered by issuance.
#[derive(Copy, Clone, Debug, PartialEq, Eq, Structural, Hash)]
pub struct TokenId {
    /// The height of the block that holds the etching.
    pub height: u64,
    /// The index of the etching transaction in that block.
    pub tx: u32,
}

/// Whether `a` stands before `b` in the order of issuance.
pub open spec fn earlier(a: TokenId, b: TokenId) -> bool {
    a.height < b.height || (a.height == b.height && a.tx < b.tx)
}

/// Whether `id` stands before `bound`, where there is a bound.
pub open spec fn below(id: TokenId, bound: Option<TokenId>) -> bool {
    match bound {
        Some(limit) => earlier(id, limit),
        None => true,
    }
}

impl TokenId {
    /// Whether the token stands before `other` in the order of issuance.
    pub fn before(&self, other: &TokenId) -> (first: bool)
        ensures
            first == earlier(*self, *other),
    {
        self.height < other.height || (self.height == other.height && self.tx < other.tx)
    }
}

/// Under which terms anyone may mint a token.
#[derive(Copy, Clone, Debug, PartialEq, Eq)]
pub struct Terms {
    /// The most that minting may bring the supply to.
    pub cap: u128,
    /// How much one mint makes.
    pub amount: u128,
    /// The first height at which minting is open, if bounded.
    pub start: Option<u64>,
    /// The last height at which minting is open, if bounded.
    pub end: Option<u64>,
}

/// What the index keeps of a token.
#[derive(Copy, Clone, Debug, PartialEq, Eq)]
pub struct TokenEntry {
    pub name: Rune,
    pub divisibility: u8,
    pub symbol: Option<char>,
    /// How much of the token has been issued so far.
    pub supply: u128,
    pub terms: Option<Terms>,
    /// The transaction that etched the token.
    pub etching: TxId,
}

/// An amount of one token.
#[derive(Copy, Clone, Debug, PartialEq, Eq)]
pub struct Balance {
    pub token: TokenId,
    pub amount: u128,
}

} // verus!
