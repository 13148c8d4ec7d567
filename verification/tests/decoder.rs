use ord::chain::Transaction;
use ord::chain::TxId;
use ord::chain::TxOut;
use ord::decoder::decode;
use ord::decoder::read_instruction;
use ord::decoder::Field;
use ord::message::Edict;
use ord::message::Etching;
use ord::message::Instruction;
use ord::rune::Rune;
use ord::token::Terms;
use ord::token::TokenId;

fn leb(mut n: u128) -> Vec<u8> {
    let mut out = Vec::new();
    loop {
        let low = (n & 0x7f) as u8;
        n >>= 7;
        if n == 0 {
            out.push(low);
            return out;
        }
        out.push(low | 0x80);
    }
}

fn bytes_of(numbers: &[u128]) -> Vec<u8> {
    numbers.iter().flat_map(|n| leb(*n)).collect()
}

fn tok(height: u64, tx: u32) -> TokenId {
    TokenId { height, tx }
}

fn here() -> TokenId {
    tok(5, 1)
}

fn read(numbers: &[u128]) -> Instruction {
    decode(&bytes_of(numbers), here()).instruction
}

fn moves(token: TokenId, amount: u128, output: u32) -> Edict {
    Edict { token, amount, output }
}

#[test]
fn empty_message_moves_nothing() {
    assert_eq!(read(&[]), Instruction::Edicts { edicts: vec![] });
    assert_eq!(read(&[0]), Instruction::Edicts { edicts: vec![] });
}

#[test]
fn edicts_follow_the_body_tag() {
    assert_eq!(
        read(&[0, 3, 1, 100, 0, 4, 0, 7, 2]),
        Instruction::Edicts { edicts: vec![moves(tok(3, 1), 100, 0), moves(tok(4, 0), 7, 2)] }
    );
}

#[test]
fn etching_with_terms() {
    let numbers = [1, 3, 2, 27, 3, 2, 4, 82, 5, 250, 6, 100, 7, 1, 8, 2, 0, 5, 1, 9, 0];
    assert_eq!(
        read(&numbers),
        Instruction::Etch {
            etching: Etching {
                name: Rune(27),
                divisibility: 2,
                symbol: Some('R'),
                terms: Some(Terms { cap: 250, amount: 100, start: Some(1), end: Some(2) }),
            },
            edicts: vec![moves(tok(5, 1), 9, 0)],
        }
    );
}

#[test]
fn etching_without_terms_takes_defaults() {
    assert_eq!(
        read(&[1, 1, 2, 0, 5, 9, 6, 9]),
        Instruction::Etch {
            etching: Etching { name: Rune(0), divisibility: 0, symbol: None, terms: None },
            edicts: vec![],
        }
    );
    assert_eq!(
        read(&[1, 3, 2, 701]),
        Instruction::Etch {
            etching: Etching {
                name: Rune(701),
                divisibility: 0,
                symbol: None,
                terms: Some(Terms { cap: u128::MAX, amount: 0, start: None, end: None }),
            },
            edicts: vec![],
        }
    );
}

#[test]
fn symbol_is_the_character_with_that_number() {
    let symbol = |code: u128| match read(&[1, 1, 2, 5, 4, code]) {
        Instruction::Etch { etching, .. } => etching.symbol,
        other => panic!("no etching: {:?}", other),
    };
    assert_eq!(symbol(36), Some('$'));
    assert_eq!(symbol(0x2022), Some('•'));
    assert_eq!(symbol(0), Some('\u{0}'));
    assert_eq!(symbol(0xD7FF), Some('\u{D7FF}'));
    assert_eq!(symbol(0xE000), Some('\u{E000}'));
    assert_eq!(symbol(0x10FFFF), Some('\u{10FFFF}'));
}

#[test]
fn etching_fields_without_the_flag_are_not_read() {
    assert_eq!(read(&[2, 27, 3, 99, 4, 0xD800]), Instruction::Edicts { edicts: vec![] });
    assert_eq!(read(&[1, 2, 2, 27]), Instruction::Edicts { edicts: vec![] });
}

#[test]
fn mint_names_its_token() {
    assert_eq!(
        read(&[9, 3, 10, 1, 0, 3, 1, 30, 1]),
        Instruction::Mint { token: tok(3, 1), edicts: vec![moves(tok(3, 1), 30, 1)] }
    );
    assert_eq!(read(&[10, 0, 9, 0]), Instruction::Mint { token: tok(0, 0), edicts: vec![] });
}

#[test]
fn first_field_of_a_tag_counts() {
    assert_eq!(read(&[9, 3, 9, 4, 10, 1, 10, 2]), Instruction::Mint { token: tok(3, 1), edicts: vec![] });
}

#[test]
fn unknown_fields_are_kept_and_not_read() {
    let message = decode(&bytes_of(&[77, 5, 9, 3, 99, 1, 10, 1, 0, 3, 1, 30, 1]), here());
    assert_eq!(
        message.instruction,
        Instruction::Mint { token: tok(3, 1), edicts: vec![moves(tok(3, 1), 30, 1)] }
    );
    assert_eq!(
        message.fields,
        vec![
            Field { tag: 77, value: 5 },
            Field { tag: 9, value: 3 },
            Field { tag: 99, value: 1 },
            Field { tag: 10, value: 1 },
        ]
    );
}

#[test]
fn malformed_number_makes_a_cenotaph() {
    assert_eq!(decode(&vec![0x80], here()).instruction, Instruction::Cenotaph { tokens: vec![] });
    let mut bytes = bytes_of(&[0, 3, 1, 100, 0]);
    bytes.push(0xff);
    assert_eq!(
        decode(&bytes, here()).instruction,
        Instruction::Cenotaph { tokens: vec![tok(3, 1)] }
    );
    let mut bytes = bytes_of(&[9, 2, 10, 0]);
    bytes.extend(vec![0x80; 20]);
    assert_eq!(
        decode(&bytes, here()).instruction,
        Instruction::Cenotaph { tokens: vec![tok(2, 0)] }
    );
}

#[test]
fn tag_without_value_makes_a_cenotaph() {
    assert_eq!(read(&[1]), Instruction::Cenotaph { tokens: vec![] });
    assert_eq!(read(&[9, 3, 10, 1, 7]), Instruction::Cenotaph { tokens: vec![tok(3, 1)] });
}

#[test]
fn numbers_left_over_behind_the_edicts_make_a_cenotaph() {
    assert_eq!(read(&[0, 1, 2, 3]), Instruction::Cenotaph { tokens: vec![] });
    assert_eq!(read(&[0, 0, 0, 5, 1, 9]), Instruction::Cenotaph { tokens: vec![tok(0, 0)] });
    assert_eq!(
        read(&[0, 1, 2, 3, 4, 2, 0, 3, 4, 9, 9]),
        Instruction::Cenotaph { tokens: vec![tok(1, 2), tok(2, 0)] }
    );
}

#[test]
fn edict_out_of_range_makes_a_cenotaph() {
    let big = u64::MAX as u128 + 1;
    assert_eq!(
        read(&[0, big, 0, 5, 0, 1, 1, 5, 0]),
        Instruction::Cenotaph { tokens: vec![tok(1, 1)] }
    );
    assert_eq!(read(&[0, 1, u32::MAX as u128 + 1, 5, 0]), Instruction::Cenotaph { tokens: vec![] });
    assert_eq!(read(&[0, 1, 1, 5, u32::MAX as u128 + 1]), Instruction::Cenotaph { tokens: vec![] });
    assert_eq!(
        read(&[0, u64::MAX as u128, u32::MAX as u128, u128::MAX, u32::MAX as u128]),
        Instruction::Edicts { edicts: vec![moves(tok(u64::MAX, u32::MAX), u128::MAX, u32::MAX)] }
    );
}

#[test]
fn etching_out_of_bounds_makes_a_cenotaph() {
    assert_eq!(read(&[1, 1, 2, 27, 3, 39]), Instruction::Cenotaph { tokens: vec![] });
    assert_eq!(read(&[1, 1, 2, 27, 3, 256]), Instruction::Cenotaph { tokens: vec![] });
    assert_eq!(read(&[1, 1, 2, 27, 4, 0xD800]), Instruction::Cenotaph { tokens: vec![] });
    assert_eq!(read(&[1, 1, 2, 27, 4, 0xDFFF]), Instruction::Cenotaph { tokens: vec![] });
    assert_eq!(read(&[1, 1, 2, 27, 4, 0x110000]), Instruction::Cenotaph { tokens: vec![] });
    assert_eq!(read(&[1, 1, 2, 27, 4, 1 << 32]), Instruction::Cenotaph { tokens: vec![] });
    assert_eq!(read(&[1, 1, 3, 2]), Instruction::Cenotaph { tokens: vec![] });
    assert_eq!(
        read(&[1, 3, 2, 27, 7, u64::MAX as u128 + 1]),
        Instruction::Cenotaph { tokens: vec![] }
    );
    assert_eq!(
        read(&[1, 3, 2, 27, 8, u64::MAX as u128 + 1, 0, 1, 0, 4, 0]),
        Instruction::Cenotaph { tokens: vec![tok(1, 0)] }
    );
    assert!(matches!(read(&[1, 1, 2, 27, 3, 38]), Instruction::Etch { .. }));
}

#[test]
fn mint_of_half_a_token_makes_a_cenotaph() {
    assert_eq!(read(&[9, 3]), Instruction::Cenotaph { tokens: vec![] });
    assert_eq!(read(&[10, 3]), Instruction::Cenotaph { tokens: vec![] });
    assert_eq!(read(&[9, u64::MAX as u128 + 1, 10, 0]), Instruction::Cenotaph { tokens: vec![] });
    assert_eq!(read(&[9, 0, 10, u32::MAX as u128 + 1]), Instruction::Cenotaph { tokens: vec![] });
}

#[test]
fn etching_together_with_a_mint_makes_a_cenotaph() {
    assert_eq!(
        read(&[1, 1, 2, 27, 9, 3, 10, 1, 0, 2, 2, 5, 0]),
        Instruction::Cenotaph { tokens: vec![tok(2, 2), tok(3, 1)] }
    );
}

#[test]
fn strict_message_must_name_known_tokens() {
    assert_eq!(
        read(&[1, 4, 0, 5, 0, 10, 0]),
        Instruction::Edicts { edicts: vec![moves(tok(5, 0), 10, 0)] }
    );
    assert_eq!(
        read(&[1, 4, 0, 4, 900, 10, 0]),
        Instruction::Edicts { edicts: vec![moves(tok(4, 900), 10, 0)] }
    );
    assert_eq!(read(&[1, 4, 0, 5, 1, 10, 0]), Instruction::Cenotaph { tokens: vec![tok(5, 1)] });
    assert_eq!(read(&[1, 4, 0, 5, 2, 10, 0]), Instruction::Cenotaph { tokens: vec![tok(5, 2)] });
    assert_eq!(
        read(&[1, 4, 0, 3, 0, 1, 0, 6, 0, 10, 0]),
        Instruction::Cenotaph { tokens: vec![tok(3, 0), tok(6, 0)] }
    );
}

#[test]
fn strict_etching_may_name_its_own_token() {
    assert!(matches!(read(&[1, 5, 2, 27, 0, 5, 1, 10, 0]), Instruction::Etch { .. }));
    assert_eq!(
        read(&[1, 5, 2, 27, 0, 5, 2, 10, 0]),
        Instruction::Cenotaph { tokens: vec![tok(5, 2)] }
    );
}

#[test]
fn message_that_is_not_strict_may_name_any_token() {
    assert_eq!(
        read(&[0, 5, 1, 10, 0, 900, 0, 1, 1]),
        Instruction::Edicts { edicts: vec![moves(tok(5, 1), 10, 0), moves(tok(900, 0), 1, 1)] }
    );
    assert_eq!(
        read(&[1, 8, 0, 900, 0, 1, 1]),
        Instruction::Edicts { edicts: vec![moves(tok(900, 0), 1, 1)] }
    );
}

#[test]
fn transaction_without_a_message_tells_nothing() {
    let tx = Transaction {
        txid: TxId { high: 0, low: 1 },
        inputs: vec![],
        outputs: vec![TxOut { value: 5, payload: None }, TxOut { value: 0, payload: None }],
        witness: vec![],
    };
    assert_eq!(read_instruction(&tx, here()), Instruction::Absent);
    let none =
        Transaction { txid: TxId { high: 0, low: 1 }, inputs: vec![], outputs: vec![], witness: vec![] };
    assert_eq!(read_instruction(&none, here()), Instruction::Absent);
}

#[test]
fn first_output_with_a_message_counts() {
    let tx = Transaction {
        txid: TxId { high: 0, low: 1 },
        inputs: vec![],
        outputs: vec![
            TxOut { value: 5, payload: None },
            TxOut { value: 0, payload: Some(bytes_of(&[9, 1, 10, 1])) },
            TxOut { value: 0, payload: Some(bytes_of(&[9, 2, 10, 2])) },
        ],
        witness: vec![],
    };
    assert_eq!(read_instruction(&tx, here()), Instruction::Mint { token: tok(1, 1), edicts: vec![] });
}
