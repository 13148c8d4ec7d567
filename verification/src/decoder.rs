//! Reading the message of a transaction: from bytes to an instruction.
//!
//! A message is a run of numbers. Pairs of a tag and a value come first;
//! the tag 0 ends them, and the numbers behind it are edicts, four numbers
//! each: the height and the transaction index of the token, the amount,
//! and the output.

use vstd::prelude::*;
use crate::chain::Transaction;
use crate::chain::TxOut;
use crate::message::Edict;
use crate::message::Etching;
use crate::message::Instruction;
use crate::message::InstructionView;
use crate::message::MAX_DIVISIBILITY;
use crate::rune::Rune;
use crate::token::earlier;
use crate::token::Terms;
use crate::token::TokenId;
use crate::varint::integers;
use crate::varint::read_integers;
use crate::varint::well_encoded;

verus! {

/// The tag that ends the fields; edicts follow it.
pub const TAG_BODY: u128 = 0;

/// The tag of the flags.
pub const TAG_FLAGS: u128 = 1;

/// The tag of the name of an etched token.
pub const TAG_NAME: u128 = 2;

/// The tag of the divisibility of an etched token.
pub const TAG_DIVISIBILITY: u128 = 3;

/// The tag of the symbol of an etched token.
pub const TAG_SYMBOL: u128 = 4;

/// The tag of the cap of the mint terms.
pub const TAG_CAP: u128 = 5;

/// The tag of the amount of one mint.
pub const TAG_AMOUNT: u128 = 6;

/// The tag of the first height of the mint window.
pub const TAG_START: u128 = 7;

/// The tag of the last height of the mint window.
pub const TAG_END: u128 = 8;

/// The tag of the height in the identifier of a token to mint.
pub const TAG_MINT_HEIGHT: u128 = 9;

/// The tag of the transaction index in the identifier of a token to mint.
pub const TAG_MINT_TX: u128 = 10;

/// The flag that the message etches a token.
pub const FLAG_ETCH: u128 = 1;

/// The flag that the etched token has mint terms.
pub const FLAG_TERMS: u128 = 2;

/// The flag that every edict must name a token that is known.
pub const FLAG_STRICT: u128 = 4;

/// One field of a message: a tag and its value. Fields with tags that mean
/// nothing here are kept and not looked at.
#[derive(Copy, Clone, Debug, PartialEq, Eq)]
pub struct Field {
    pub tag: u128,
    pub value: u128,
}

/// What a message decodes to.
#[derive(Clone, Debug, PartialEq, Eq)]
pub struct Message {
    pub instruction: Instruction,
    /// Every field of the message, in order.
    pub fields: Vec<Field>,
}

/// The fields at the front of `ints`: pairs of tag and value up to the tag
/// that ends them.
pub open spec fn fields(ints: Seq<u128>) -> Seq<Field>
    decreases ints.len(),
{
    if ints.len() < 2 || ints[0] == TAG_BODY {
        Seq::empty()
    } else {
        seq![(Field { tag: ints[0], value: ints[1] })] + fields(ints.skip(2))
    }
}

/// Whether the fields of `ints` end in a tag that has no value.
pub open spec fn dangling(ints: Seq<u128>) -> bool
    decreases ints.len(),
{
    if ints.len() == 0 || ints[0] == TAG_BODY {
        false
    } else if ints.len() == 1 {
        true
    } else {
        dangling(ints.skip(2))
    }
}

/// The numbers behind the tag that ends the fields.
pub open spec fn body(ints: Seq<u128>) -> Seq<u128>
    decreases ints.len(),
{
    if ints.len() == 0 {
        Seq::empty()
    } else if ints[0] == TAG_BODY {
        ints.skip(1)
    } else if ints.len() == 1 {
        Seq::empty()
    } else {
        body(ints.skip(2))
    }
}

/// The value of the first field with the tag `tag`.
pub open spec fn lookup(fields: Seq<Field>, tag: u128) -> Option<u128>
    decreases fields.len(),
{
    if fields.len() == 0 {
        None
    } else if fields[0].tag == tag {
        Some(fields[0].value)
    } else {
        lookup(fields.skip(1), tag)
    }
}

/// Whether the flags among `fields` have `flag` set.
pub open spec fn has_flag(fields: Seq<Field>, flag: u128) -> bool {
    match lookup(fields, TAG_FLAGS) {
        Some(flags) => flag > 0 && (flags / flag) % 2 == 1,
        None => false,
    }
}

/// The edict that four numbers spell, where each is within its range.
pub open spec fn edict_of(height: u128, tx: u128, amount: u128, output: u128) -> Option<Edict> {
    if height <= u64::MAX && tx <= u32::MAX && output <= u32::MAX {
        Some(
            (Edict {
                token: TokenId { height: height as u64, tx: tx as u32 },
                amount,
                output: output as u32,
            }),
        )
    } else {
        None
    }
}

/// The edicts that `body` spells, four numbers each; numbers out of range
/// and numbers left over spell none.
pub open spec fn edicts_of(body: Seq<u128>) -> Seq<Edict>
    decreases body.len(),
{
    if body.len() < 4 {
        Seq::empty()
    } else {
        match edict_of(body[0], body[1], body[2], body[3]) {
            Some(edict) => seq![edict] + edicts_of(body.skip(4)),
            None => edicts_of(body.skip(4)),
        }
    }
}

/// Whether `body` is edicts from the first number to the last.
pub open spec fn edicts_clean(body: Seq<u128>) -> bool
    decreases body.len(),
{
    if body.len() == 0 {
        true
    } else if body.len() < 4 {
        false
    } else {
        edict_of(body[0], body[1], body[2], body[3]) is Some && edicts_clean(body.skip(4))
    }
}

/// Whether `code` is the number of a character.
pub open spec fn is_char_code(code: u128) -> bool {
    code <= 0xD7FF || 0xE000 <= code <= 0x10FFFF
}

/// What `field` says where it is a height: nothing, a height, or a
/// number out of range, which is `None`.
pub open spec fn height_of(field: Option<u128>) -> Option<Option<u64>> {
    match field {
        None => Some(None),
        Some(value) => if value <= u64::MAX {
            Some(Some(value as u64))
        } else {
            None
        },
    }
}

/// The mint terms among `fields`, where the flag for them is set; `None`
/// where a height is out of range.
pub open spec fn terms_of(fields: Seq<Field>) -> Option<Option<Terms>> {
    if !has_flag(fields, FLAG_TERMS) {
        Some(None)
    } else {
        match (height_of(lookup(fields, TAG_START)), height_of(lookup(fields, TAG_END))) {
            (Some(start), Some(end)) => Some(
                Some(
                    (Terms {
                        cap: match lookup(fields, TAG_CAP) {
                            Some(cap) => cap,
                            None => u128::MAX,
                        },
                        amount: match lookup(fields, TAG_AMOUNT) {
                            Some(amount) => amount,
                            None => 0,
                        },
                        start,
                        end,
                    }),
                ),
            ),
            _ => None,
        }
    }
}

/// The etching among `fields`; `None` where the name is missing, the
/// divisibility is beyond its bound, the symbol is no character, or the
/// terms are malformed.
pub open spec fn etching_of(fields: Seq<Field>) -> Option<Etching> {
    let divisibility = match lookup(fields, TAG_DIVISIBILITY) {
        Some(value) => value,
        None => 0,
    };
    match (lookup(fields, TAG_NAME), terms_of(fields)) {
        (Some(name), Some(terms)) => if divisibility <= MAX_DIVISIBILITY && (lookup(
            fields,
            TAG_SYMBOL,
        ) matches Some(code) ==> is_char_code(code)) {
            Some(
                (Etching {
                    name: Rune(name),
                    divisibility: divisibility as u8,
                    symbol: match lookup(fields, TAG_SYMBOL) {
                        Some(code) => Some(code as char),
                        None => None,
                    },
                    terms,
                }),
            )
        } else {
            None
        },
        _ => None,
    }
}

/// The token to mint among `fields`: none where neither part of its
/// identifier is given; `None` where one part is missing or out of range.
pub open spec fn mint_of(fields: Seq<Field>) -> Option<Option<TokenId>> {
    match (lookup(fields, TAG_MINT_HEIGHT), lookup(fields, TAG_MINT_TX)) {
        (None, None) => Some(None),
        (Some(height), Some(tx)) => if height <= u64::MAX && tx <= u32::MAX {
            Some(Some((TokenId { height: height as u64, tx: tx as u32 })))
        } else {
            None
        },
        _ => None,
    }
}

/// Whether a token can be known to the transaction at `position`: it was
/// etched before, or the transaction etches it.
pub open spec fn known_at(token: TokenId, position: TokenId, etching: bool) -> bool {
    earlier(token, position) || (etching && token == position)
}

/// Whether every edict names a token that can be known.
pub open spec fn all_known(edicts: Seq<Edict>, position: TokenId, etching: bool) -> bool {
    forall|i: int| 0 <= i < edicts.len() ==> known_at((#[trigger] edicts[i]).token, position, etching)
}

/// The tokens that the edicts name, in order.
pub open spec fn named(edicts: Seq<Edict>) -> Seq<TokenId> {
    Seq::new(edicts.len(), |i: int| edicts[i].token)
}

/// The tokens that a message refers to: those of its edicts, then the
/// token it mints.
pub open spec fn referenced(ints: Seq<u128>) -> Seq<TokenId> {
    named(edicts_of(body(ints))) + match mint_of(fields(ints)) {
        Some(Some(token)) => seq![token],
        _ => Seq::empty(),
    }
}

/// Whether the message in `bytes`, read at `position`, is malformed: a
/// number is not well encoded; a tag has no value; the numbers behind the
/// fields are not edicts from first to last; the etching or the token to
/// mint is malformed; the message both etches and mints; or it is strict
/// and an edict names a token that cannot be known yet.
pub open spec fn malformed(bytes: Seq<u8>, position: TokenId) -> bool {
    let ints = integers(bytes);
    let all = fields(ints);
    let etch = has_flag(all, FLAG_ETCH);
    ||| !well_encoded(bytes)
    ||| dangling(ints)
    ||| !edicts_clean(body(ints))
    ||| etch && etching_of(all) is None
    ||| mint_of(all) is None
    ||| etch && mint_of(all) != Some(None::<TokenId>)
    ||| has_flag(all, FLAG_STRICT) && !all_known(edicts_of(body(ints)), position, etch)
}

/// What the message in `bytes` tells the transaction at `position`. A
/// malformed message is a cenotaph of the tokens it refers to.
pub open spec fn decoded(bytes: Seq<u8>, position: TokenId) -> InstructionView {
    let ints = integers(bytes);
    let all = fields(ints);
    let edicts = edicts_of(body(ints));
    if malformed(bytes, position) {
        InstructionView::Cenotaph { tokens: referenced(ints) }
    } else if has_flag(all, FLAG_ETCH) {
        InstructionView::Etch { etching: etching_of(all)->0, edicts }
    } else {
        match mint_of(all) {
            Some(Some(token)) => InstructionView::Mint { token, edicts },
            _ => InstructionView::Edicts { edicts },
        }
    }
}

/// The character with the number `code`, where it is the number of one.
/// This is `char::from_u32` of the standard library, which gives a
/// character for every Unicode scalar value, the character whose number is
/// the argument, and `None` for every other number.
#[verifier::external_body]
fn char_of(code: u32) -> (c: Option<char>)
    ensures
        c == if is_char_code(code as u128) {
            Some(code as char)
        } else {
            None
        },
{
    char::from_u32(code)
}

/// The value of the first field with the tag `tag`.
pub fn find_field(fields: &Vec<Field>, tag: u128) -> (value: Option<u128>)
    ensures
        value == lookup(fields@, tag),
{
    let mut i: usize = 0;
    proof {
        assert(fields@.skip(0) =~= fields@);
    }
    while i < fields.len()
        invariant
            i <= fields@.len(),
            lookup(fields@.skip(i as int), tag) == lookup(fields@, tag),
        decreases fields@.len() - i,
    {
        if fields[i].tag == tag {
            return Some(fields[i].value);
        }
        assert(fields@.skip(i as int).skip(1) =~= fields@.skip(i + 1));
        i += 1;
    }
    None
}

/// Whether the flags among `fields` have `flag` set.
pub fn flag_set(fields: &Vec<Field>, flag: u128) -> (set: bool)
    ensures
        set == has_flag(fields@, flag),
{
    match find_field(fields, TAG_FLAGS) {
        Some(flags) => flag > 0 && (flags / flag) % 2 == 1,
        None => false,
    }
}

/// Splits the numbers of a message into its fields and what follows
/// them. Returns the fields, the index at which the edicts start, and
/// whether a tag is left without a value.
pub fn read_fields(ints: &Vec<u128>) -> (read: (Vec<Field>, usize, bool))
    ensures
        read.0@ == fields(ints@),
        read.1 <= ints@.len(),
        ints@.skip(read.1 as int) == body(ints@),
        read.2 == dangling(ints@),
{
    let mut all: Vec<Field> = Vec::new();
    let mut i: usize = 0;
    proof {
        assert(ints@.skip(0) =~= ints@);
    }
    while i < ints.len() && ints[i] != TAG_BODY && ints.len() - i >= 2
        invariant
            i <= ints@.len(),
            all@ + fields(ints@.skip(i as int)) == fields(ints@),
            dangling(ints@.skip(i as int)) == dangling(ints@),
            body(ints@.skip(i as int)) == body(ints@),
        decreases ints@.len() - i,
    {
        let ghost tail = ints@.skip(i as int);
        let ghost had = all@;
        assert(tail.skip(2) =~= ints@.skip(i + 2));
        let field = Field { tag: ints[i], value: ints[i + 1] };
        all.push(field);
        assert(all@ + fields(ints@.skip(i + 2)) =~= had + (seq![field] + fields(
            ints@.skip(i + 2),
        )));
        i += 2;
    }
    let ghost tail = ints@.skip(i as int);
    assert(all@ + Seq::<Field>::empty() =~= all@);
    if i < ints.len() && ints[i] == TAG_BODY {
        assert(tail.skip(1) =~= ints@.skip(i + 1));
        (all, i + 1, false)
    } else if i < ints.len() {
        assert(ints@.skip(ints@.len() as int) =~= Seq::<u128>::empty());
        (all, ints.len(), true)
    } else {
        assert(tail =~= Seq::<u128>::empty());
        (all, i, false)
    }
}

/// Reads the edicts that start at index `from` of `ints`. Returns them
/// and whether the numbers are edicts from first to last.
pub fn read_edicts(ints: &Vec<u128>, from: usize) -> (read: (Vec<Edict>, bool))
    requires
        from <= ints@.len(),
    ensures
        read.0@ == edicts_of(ints@.skip(from as int)),
        read.1 == edicts_clean(ints@.skip(from as int)),
{
    let mut edicts: Vec<Edict> = Vec::new();
    let mut clean = true;
    let mut i: usize = from;
    while ints.len() - i >= 4
        invariant
            from <= i <= ints@.len(),
            edicts@ + edicts_of(ints@.skip(i as int)) == edicts_of(ints@.skip(from as int)),
            (clean && edicts_clean(ints@.skip(i as int))) == edicts_clean(
                ints@.skip(from as int),
            ),
        decreases ints@.len() - i,
    {
        let ghost tail = ints@.skip(i as int);
        let ghost had = edicts@;
        assert(tail.skip(4) =~= ints@.skip(i + 4));
        let height = ints[i];
        let tx = ints[i + 1];
        let amount = ints[i + 2];
        let output = ints[i + 3];
        if height <= u64::MAX as u128 && tx <= u32::MAX as u128 && output <= u32::MAX as u128 {
            let edict = Edict {
                token: TokenId { height: height as u64, tx: tx as u32 },
                amount,
                output: output as u32,
            };
            edicts.push(edict);
            assert(edicts@ + edicts_of(ints@.skip(i + 4)) =~= had + (seq![edict] + edicts_of(
                ints@.skip(i + 4),
            )));
        } else {
            clean = false;
        }
        i += 4;
    }
    assert(edicts@ + Seq::<Edict>::empty() =~= edicts@);
    if i < ints.len() {
        clean = false;
    }
    (edicts, clean)
}

/// What `field` says where it is a height.
pub fn read_height(field: Option<u128>) -> (height: Option<Option<u64>>)
    ensures
        height == height_of(field),
{
    match field {
        None => Some(None),
        Some(value) => if value <= u64::MAX as u128 {
            Some(Some(value as u64))
        } else {
            None
        },
    }
}

/// The mint terms among `fields`.
pub fn read_terms(fields: &Vec<Field>) -> (terms: Option<Option<Terms>>)
    ensures
        terms == terms_of(fields@),
{
    if !flag_set(fields, FLAG_TERMS) {
        return Some(None);
    }
    let start = match read_height(find_field(fields, TAG_START)) {
        Some(start) => start,
        None => {
            return None;
        },
    };
    let end = match read_height(find_field(fields, TAG_END)) {
        Some(end) => end,
        None => {
            return None;
        },
    };
    let cap = match find_field(fields, TAG_CAP) {
        Some(cap) => cap,
        None => u128::MAX,
    };
    let amount = match find_field(fields, TAG_AMOUNT) {
        Some(amount) => amount,
        None => 0,
    };
    Some(Some(Terms { cap, amount, start, end }))
}

/// The etching among `fields`.
pub fn read_etching(fields: &Vec<Field>) -> (etching: Option<Etching>)
    ensures
        etching == etching_of(fields@),
{
    let divisibility = match find_field(fields, TAG_DIVISIBILITY) {
        Some(value) => value,
        None => 0,
    };
    let name = match find_field(fields, TAG_NAME) {
        Some(name) => name,
        None => {
            return None;
        },
    };
    let terms = match read_terms(fields) {
        Some(terms) => terms,
        None => {
            return None;
        },
    };
    if divisibility > MAX_DIVISIBILITY as u128 {
        return None;
    }
    let symbol = match find_field(fields, TAG_SYMBOL) {
        None => None,
        Some(code) => {
            if code > 0x10FFFF {
                return None;
            }
            match char_of(code as u32) {
                Some(symbol) => Some(symbol),
                None => {
                    return None;
                },
            }
        },
    };
    Some(Etching { name: Rune(name), divisibility: divisibility as u8, symbol, terms })
}

/// The token to mint among `fields`.
pub fn read_mint(fields: &Vec<Field>) -> (mint: Option<Option<TokenId>>)
    ensures
        mint == mint_of(fields@),
{
    match (find_field(fields, TAG_MINT_HEIGHT), find_field(fields, TAG_MINT_TX)) {
        (None, None) => Some(None),
        (Some(height), Some(tx)) => if height <= u64::MAX as u128 && tx <= u32::MAX as u128 {
            Some(Some(TokenId { height: height as u64, tx: tx as u32 }))
        } else {
            None
        },
        _ => None,
    }
}

/// Whether every edict names a token that can be known at `position`.
pub fn check_known(edicts: &Vec<Edict>, position: TokenId, etching: bool) -> (known: bool)
    ensures
        known == all_known(edicts@, position, etching),
{
    let mut i: usize = 0;
    while i < edicts.len()
        invariant
            i <= edicts@.len(),
            forall|j: int| 0 <= j < i ==> known_at((#[trigger] edicts@[j]).token, position, etching),
        decreases edicts@.len() - i,
    {
        let token = edicts[i].token;
        let before = token.before(&position);
        let own = etching && token.height == position.height && token.tx == position.tx;
        if !before && !own {
            return false;
        }
        i += 1;
    }
    true
}

/// The tokens that the edicts name, then `mint` where it is one.
pub fn tokens_named(edicts: &Vec<Edict>, mint: Option<Option<TokenId>>) -> (tokens: Vec<TokenId>)
    ensures
        tokens@ == named(edicts@) + match mint {
            Some(Some(token)) => seq![token],
            _ => Seq::empty(),
        },
{
    let mut tokens: Vec<TokenId> = Vec::new();
    let mut i: usize = 0;
    while i < edicts.len()
        invariant
            i <= edicts@.len(),
            tokens@ == named(edicts@).take(i as int),
        decreases edicts@.len() - i,
    {
        tokens.push(edicts[i].token);
        i += 1;
        assert(tokens@ =~= named(edicts@).take(i as int));
    }
    assert(named(edicts@).take(i as int) =~= named(edicts@));
    match mint {
        Some(Some(token)) => {
            tokens.push(token);
            assert(tokens@ =~= named(edicts@) + seq![token]);
        },
        _ => {
            assert(tokens@ =~= named(edicts@) + Seq::<TokenId>::empty());
        },
    }
    tokens
}

/// Decodes the message in `bytes` for the transaction at `position`.
/// Decoding never fails: a malformed message decodes to a cenotaph.
pub fn decode(bytes: &Vec<u8>, position: TokenId) -> (message: Message)
    ensures
        message.instruction@ == decoded(bytes@, position),
        message.fields@ == fields(integers(bytes@)),
{
    let (ints, encoded) = read_integers(bytes);
    let (all, body_at, dangles) = read_fields(&ints);
    let (edicts, clean) = read_edicts(&ints, body_at);
    let etch = flag_set(&all, FLAG_ETCH);
    let strict = flag_set(&all, FLAG_STRICT);
    let mint = read_mint(&all);
    let etching = if etch {
        read_etching(&all)
    } else {
        None
    };
    let known = !strict || check_known(&edicts, position, etch);
    let both = etch && match mint {
        Some(None) => false,
        _ => true,
    };
    let bad = !encoded || dangles || !clean || (etch && etching.is_none()) || mint.is_none()
        || both || !known;
    let instruction = if bad {
        Instruction::Cenotaph { tokens: tokens_named(&edicts, mint) }
    } else {
        match etching {
            Some(etching) => Instruction::Etch { etching, edicts },
            None => match mint {
                Some(Some(token)) => Instruction::Mint { token, edicts },
                _ => Instruction::Edicts { edicts },
            },
        }
    };
    Message { instruction, fields: all }
}

/// The bytes of the message that the outputs carry: those of the first
/// output that carries any.
pub open spec fn payload_of(outputs: Seq<TxOut>) -> Option<Seq<u8>>
    decreases outputs.len(),
{
    if outputs.len() == 0 {
        None
    } else {
        match outputs[0].payload {
            Some(bytes) => Some(bytes@),
            None => payload_of(outputs.skip(1)),
        }
    }
}

/// What the transaction `tx` at `position` tells the token ledger.
pub open spec fn instruction_of(tx: Transaction, position: TokenId) -> InstructionView {
    match payload_of(tx.outputs@) {
        Some(bytes) => decoded(bytes, position),
        None => InstructionView::Absent,
    }
}

/// Decodes the message of the transaction `tx` at `position`, where it
/// carries one.
pub fn read_instruction(tx: &Transaction, position: TokenId) -> (instruction: Instruction)
    ensures
        instruction@ == instruction_of(*tx, position),
{
    let mut k: usize = 0;
    proof {
        assert(tx.outputs@.skip(0) =~= tx.outputs@);
    }
    while k < tx.outputs.len()
        invariant
            k <= tx.outputs@.len(),
            payload_of(tx.outputs@.skip(k as int)) == payload_of(tx.outputs@),
        decreases tx.outputs@.len() - k,
    {
        match &tx.outputs[k].payload {
            Some(bytes) => {
                return decode(bytes, position).instruction;
            },
            None => {},
        }
        assert(tx.outputs@.skip(k as int).skip(1) =~= tx.outputs@.skip(k + 1));
        k += 1;
    }
    Instruction::Absent
}

} // verus!
