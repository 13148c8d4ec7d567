//! The instructions that a transaction can give the token ledger.

use vstd::prelude::*;
use crate::rune::Rune;
use crate::token::Terms;
use crate::token::TokenId;

verus! {

/// The largest number of decimal places a token may have: an amount of
/// 128 bits has no more than 39 digits.
pub const MAX_DIVISIBILITY: u8 = 38;

/// An instruction to move an amount of a token to an output. The output
/// whose index is the number of outputs stands for all outputs that may
/// hold tokens.
#[derive(Copy, Clone, Debug, PartialEq, Eq)]
pub struct Edict {
    pub token: TokenId,
    pub amount: u128,
    pub output: u32,
}

/// What an etching says of the token it creates.
#[derive(Copy, Clone, Debug, PartialEq, Eq)]
pub struct Etching {
    pub name: Rune,
    pub divisibility: u8,
    pub symbol: Option<char>,
    pub terms: Option<Terms>,
}

/// What a transaction tells the token ledger.
#[derive(Clone, Debug, PartialEq, Eq)]
pub enum Instruction {
    /// The transaction carries no message.
    Absent,
    /// Create a token, then move amounts.
    Etch { etching: Etching, edicts: Vec<Edict> },
    /// Mint a token, then move amounts.
    Mint { token: TokenId, edicts: Vec<Edict> },
    /// Move amounts.
    Edicts { edicts: Vec<Edict> },
    /// The message is malformed: what the inputs hold of the tokens it
    /// names is burned.
    Cenotaph { tokens: Vec<TokenId> },
}

/// What a transaction tells the token ledger, as a mathematical value.
pub enum InstructionView {
    Absent,
    Etch { etching: Etching, edicts: Seq<Edict> },
    Mint { token: TokenId, edicts: Seq<Edict> },
    Edicts { edicts: Seq<Edict> },
    Cenotaph { tokens: Seq<TokenId> },
}

impl View for Instruction {
    type V = InstructionView;

    open spec fn view(&self) -> InstructionView {
        match *self {
            Instruction::Absent => InstructionView::Absent,
            Instruction::Etch { etching, edicts } => InstructionView::Etch {
                etching,
                edicts: edicts@,
            },
            Instruction::Mint { token, edicts } => InstructionView::Mint { token, edicts: edicts@ },
            Instruction::Edicts { edicts } => InstructionView::Edicts { edicts: edicts@ },
            Instruction::Cenotaph { tokens } => InstructionView::Cenotaph { tokens: tokens@ },
        }
    }
}

impl InstructionView {
    /// The edicts of the instruction, in order.
    pub open spec fn edicts(self) -> Seq<Edict> {
        match self {
            InstructionView::Etch { etching, edicts } => edicts,
            InstructionView::Mint { token, edicts } => edicts,
            InstructionView::Edicts { edicts } => edicts,
            _ => Seq::empty(),
        }
    }

    /// The tokens whose balances the instruction burns.
    pub open spec fn burns(self) -> Seq<TokenId> {
        match self {
            InstructionView::Cenotaph { tokens } => tokens,
            _ => Seq::empty(),
        }
    }
}

} // verus!
