use ord::chain::Block;
use ord::chain::BlockHash;
use ord::chain::OutPoint;
use ord::chain::Transaction;
use ord::chain::TxId;
use ord::chain::TxOut;
use ord::envelope::is_opening;
use ord::envelope::is_push;
use ord::envelope::read_body;
use ord::envelope::read_envelope;
use ord::envelope::read_envelope_at;
use ord::envelope::Content;
use ord::index::Index;
use ord::issuance::Schedule;
use ord::store::Inscription;

const OPENING: [u8; 6] = [0x00, 0x63, 0x03, 0x6f, 0x72, 0x64];

fn push(data: &[u8]) -> Vec<u8> {
    let mut out = vec![data.len() as u8];
    out.extend_from_slice(data);
    out
}

fn envelope(kind: &[u8], chunks: &[&[u8]]) -> Vec<u8> {
    let mut out = OPENING.to_vec();
    out.extend(push(kind));
    out.push(0x00);
    for chunk in chunks {
        out.extend(push(chunk));
    }
    out.push(0x68);
    out
}

fn content(kind: &[u8], body: &[u8]) -> Content {
    Content { content_type: kind.to_vec(), body: body.to_vec() }
}

#[test]
fn envelope_holds_type_and_body() {
    let bytes = envelope(b"text/plain", &[b"HELLO", b"WORLD"]);
    assert_eq!(read_envelope(&bytes), Some(content(b"text/plain", b"HELLOWORLD")));
    assert_eq!(read_envelope_at(&bytes, 0), Some(content(b"text/plain", b"HELLOWORLD")));
    assert_eq!(read_envelope_at(&bytes, 1), None);
}

#[test]
fn envelope_may_stand_anywhere() {
    let mut bytes = vec![0x30, 0x00, 0x63, 0x01, 0x68];
    bytes.extend(envelope(b"a", &[b"b"]));
    bytes.extend(vec![0xff, 0x68, 0x00]);
    assert_eq!(read_envelope(&bytes), Some(content(b"a", b"b")));
    assert_eq!(read_envelope_at(&bytes, 5), Some(content(b"a", b"b")));
    assert_eq!(read_envelope_at(&bytes, 0), None);
}

#[test]
fn body_may_be_empty() {
    assert_eq!(read_envelope(&envelope(b"image/png", &[])), Some(content(b"image/png", b"")));
}

#[test]
fn bytes_without_an_envelope_hold_no_content() {
    assert_eq!(read_envelope(&vec![]), None);
    assert_eq!(read_envelope(&vec![0x00, 0x63, 0x03, 0x6f, 0x72]), None);
    assert_eq!(read_envelope(&OPENING.to_vec()), None);
    assert_eq!(read_envelope(&vec![0x68; 40]), None);
}

#[test]
fn envelope_cut_short_holds_no_content() {
    let whole = envelope(b"text/plain", &[b"HELLO"]);
    for len in 0..whole.len() {
        assert_eq!(read_envelope(&whole[..len].to_vec()), None);
    }
    assert_eq!(read_envelope(&whole), Some(content(b"text/plain", b"HELLO")));
}

#[test]
fn envelope_needs_its_type_and_separator() {
    let mut no_type = OPENING.to_vec();
    no_type.extend(vec![0x00, 0x01, 0x41, 0x68]);
    assert_eq!(read_envelope(&no_type), None);
    let mut no_separator = OPENING.to_vec();
    no_separator.extend(vec![0x01, 0x41, 0x01, 0x42, 0x68]);
    assert_eq!(read_envelope(&no_separator), None);
}

#[test]
fn push_holds_from_one_to_seventy_five_bytes() {
    let long = [7u8; 75];
    assert_eq!(read_envelope(&envelope(b"t", &[&long])), Some(content(b"t", &long)));
    let mut too_long = OPENING.to_vec();
    too_long.extend(vec![0x01, 0x41, 0x00, 76]);
    too_long.extend(vec![7u8; 76]);
    too_long.push(0x68);
    assert_eq!(read_envelope(&too_long), None);
    let mut empty_push = OPENING.to_vec();
    empty_push.extend(vec![0x01, 0x41, 0x00, 0x00, 0x68]);
    assert_eq!(read_envelope(&empty_push), None);
    assert!(is_push(&vec![2, 9, 9], 0));
    assert!(!is_push(&vec![2, 9], 0));
    assert!(!is_push(&vec![0, 9], 0));
    assert!(!is_push(&vec![1, 9], 2));
    assert!(is_push(&vec![1, 1, 9], 1));
}

#[test]
fn first_whole_envelope_counts() {
    let mut bytes = OPENING.to_vec();
    bytes.extend(vec![0x01, 0x41, 0x00, 0x02, 0x42]);
    bytes.extend(envelope(b"first", &[b"1"]));
    bytes.extend(envelope(b"second", &[b"2"]));
    assert_eq!(read_envelope(&bytes), Some(content(b"first", b"1")));
}

#[test]
fn opening_and_body_are_read_where_asked() {
    let bytes = envelope(b"t", &[b"ab", b"c"]);
    assert!(is_opening(&bytes, 0));
    assert!(!is_opening(&bytes, 1));
    assert!(!is_opening(&bytes, bytes.len()));
    assert!(!is_opening(&bytes, usize::MAX));
    assert_eq!(read_body(&bytes, 9), Some(b"abc".to_vec()));
    assert_eq!(read_body(&bytes, 12), Some(b"c".to_vec()));
    assert_eq!(read_body(&bytes, 14), Some(vec![]));
    assert_eq!(read_body(&bytes, 15), None);
    assert_eq!(read_body(&bytes, 10), None);
}

fn tid(n: u128) -> TxId {
    TxId { high: 0, low: n }
}

fn spot(n: u128, index: u32) -> OutPoint {
    OutPoint { txid: tid(n), index }
}

fn reveals(n: u128, inputs: Vec<OutPoint>, values: Vec<u64>, witness: Vec<u8>) -> Transaction {
    Transaction {
        txid: tid(n),
        inputs,
        outputs: values.into_iter().map(|value| TxOut { value, payload: None }).collect(),
        witness,
    }
}

fn chain_block(height: u128, transactions: Vec<Transaction>) -> Block {
    Block {
        hash: BlockHash { high: 0, low: 100 + height },
        parent: BlockHash { high: 0, low: 99 + height },
        transactions,
    }
}

fn inscription(n: u128, kind: &[u8], body: &[u8]) -> Inscription {
    Inscription { id: tid(n), content_type: kind.to_vec(), body: body.to_vec() }
}

fn inscribed_chain() -> Index {
    let mut index = Index::new(Schedule::new(50, 2).unwrap());
    let first = chain_block(0, vec![reveals(1, vec![], vec![50], envelope(b"text/plain", &[b"A"]))]);
    assert_eq!(index.index_block(&first), Ok(()));
    let second = chain_block(
        1,
        vec![
            reveals(2, vec![], vec![50], vec![]),
            reveals(3, vec![spot(1, 0)], vec![10, 40], envelope(b"x", &[b"B"])),
        ],
    );
    assert_eq!(index.index_block(&second), Ok(()));
    index
}

#[test]
fn content_is_bound_to_the_first_unit_spent() {
    let mut index = inscribed_chain();
    assert_eq!(index.inscription_of(0), Some(inscription(1, b"text/plain", b"A")));
    assert_eq!(index.inscription_of(1), None);
    assert_eq!(index.inscription_of(50), None);
    let third = chain_block(
        2,
        vec![
            reveals(4, vec![], vec![25], envelope(b"coin", &[b"D"])),
            reveals(5, vec![spot(3, 1)], vec![40], envelope(b"y", &[b"C", b"C"])),
            reveals(6, vec![], vec![5], envelope(b"z", &[b"E"])),
            reveals(7, vec![spot(2, 0)], vec![50], vec![0x00, 0x63, 0x03]),
        ],
    );
    assert_eq!(index.index_block(&third), Ok(()));
    assert_eq!(index.inscription_of(10), Some(inscription(5, b"y", b"CC")));
    assert_eq!(index.inscription_of(100), Some(inscription(4, b"coin", b"D")));
    assert_eq!(index.inscription_of(50), None);
    assert_eq!(index.inscription_of(0), Some(inscription(1, b"text/plain", b"A")));
}

#[test]
fn inscription_stays_on_its_unit_and_moves_with_it() {
    let mut index = Index::new(Schedule::new(50, 2).unwrap());
    let first = chain_block(0, vec![reveals(1, vec![], vec![50], envelope(b"text/plain", &[b"A"]))]);
    assert_eq!(index.index_block(&first), Ok(()));
    assert_eq!(index.holder_of(0), Some(spot(1, 0)));
    let index = inscribed_chain();
    assert_eq!(index.inscription_of(0), Some(inscription(1, b"text/plain", b"A")));
    assert_eq!(index.holder_of(0), Some(spot(3, 0)));
}

#[test]
fn unit_is_inscribed_once() {
    let index = inscribed_chain();
    assert_eq!(index.inscription_of(0), Some(inscription(1, b"text/plain", b"A")));
    assert_eq!(index.ranges_of(spot(3, 0)), vec![ord::units::UnitRange { start: 0, end: 10 }]);
}

#[test]
fn rollback_takes_back_inscriptions() {
    let mut index = inscribed_chain();
    let third = chain_block(
        2,
        vec![
            reveals(4, vec![], vec![25], vec![]),
            reveals(5, vec![spot(3, 1)], vec![40], envelope(b"y", &[b"C"])),
        ],
    );
    assert_eq!(index.index_block(&third), Ok(()));
    assert_eq!(index.inscription_of(10), Some(inscription(5, b"y", b"C")));
    index.rollback_to(1);
    assert_eq!(index.inscription_of(10), None);
    assert_eq!(index.inscription_of(0), Some(inscription(1, b"text/plain", b"A")));
    index.truncate(0);
    assert_eq!(index.inscription_of(0), None);
}
