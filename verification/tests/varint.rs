use ord::varint::read_integers;
use ord::varint::read_varint;

fn enc(mut n: u128) -> Vec<u8> {
    let mut out = Vec::new();
    loop {
        let low = (n & 0x7f) as u8;
        n >>= 7;
        if n == 0 {
            out.push(low);
            return out;
        }
        out.push(low | 0x80);
    }
}

#[test]
fn small_numbers_take_one_byte() {
    assert_eq!(read_varint(&vec![0x00], 0), Some((0, 1)));
    assert_eq!(read_varint(&vec![0x01], 0), Some((1, 1)));
    assert_eq!(read_varint(&vec![0x7f], 0), Some((127, 1)));
}

#[test]
fn low_bits_come_first() {
    assert_eq!(read_varint(&vec![0x80, 0x01], 0), Some((128, 2)));
    assert_eq!(read_varint(&vec![0xff, 0x01], 0), Some((255, 2)));
    assert_eq!(read_varint(&vec![0xe5, 0x8e, 0x26], 0), Some((624485, 3)));
    assert_eq!(read_varint(&vec![0x80, 0x80, 0x01], 0), Some((16384, 3)));
}

#[test]
fn reading_starts_where_asked() {
    let bytes = vec![0x05, 0x80, 0x01, 0x07];
    assert_eq!(read_varint(&bytes, 0), Some((5, 1)));
    assert_eq!(read_varint(&bytes, 1), Some((128, 3)));
    assert_eq!(read_varint(&bytes, 2), Some((1, 3)));
    assert_eq!(read_varint(&bytes, 3), Some((7, 4)));
    assert_eq!(read_varint(&bytes, 4), None);
    assert_eq!(read_varint(&bytes, 5), None);
    assert_eq!(read_varint(&bytes, usize::MAX), None);
}

#[test]
fn number_cut_short_is_malformed() {
    assert_eq!(read_varint(&vec![], 0), None);
    assert_eq!(read_varint(&vec![0x80], 0), None);
    assert_eq!(read_varint(&vec![0xff, 0xff], 0), None);
}

#[test]
fn largest_number_takes_nineteen_bytes() {
    let mut bytes = vec![0xff; 18];
    bytes.push(0x03);
    assert_eq!(enc(u128::MAX), bytes);
    assert_eq!(read_varint(&bytes, 0), Some((u128::MAX, 19)));
}

#[test]
fn number_beyond_128_bits_is_malformed() {
    let mut bytes = vec![0xff; 18];
    bytes.push(0x04);
    assert_eq!(read_varint(&bytes, 0), None);
    let mut bytes = vec![0x80; 18];
    bytes.push(0x7f);
    assert_eq!(read_varint(&bytes, 0), None);
}

#[test]
fn number_of_more_than_nineteen_bytes_is_malformed() {
    let mut bytes = vec![0x80; 19];
    bytes.push(0x00);
    assert_eq!(read_varint(&bytes, 0), None);
    let mut bytes = vec![0x80; 18];
    bytes.push(0x00);
    assert_eq!(read_varint(&bytes, 0), Some((0, 19)));
}

#[test]
fn every_encoding_reads_back() {
    let mut n: u128 = 1;
    for _ in 0..128 {
        for value in [n - 1, n, n + (n >> 1)] {
            let bytes = enc(value);
            assert_eq!(read_varint(&bytes, 0), Some((value, bytes.len())));
        }
        n = n.wrapping_mul(2);
        if n == 0 {
            break;
        }
    }
}

#[test]
fn numbers_are_read_one_after_the_other() {
    assert_eq!(read_integers(&vec![]), (vec![], true));
    assert_eq!(read_integers(&vec![0x05, 0x80, 0x01, 0x07]), (vec![5, 128, 7], true));
    let mut bytes = enc(u128::MAX);
    bytes.extend(enc(0));
    bytes.extend(enc(300));
    assert_eq!(read_integers(&bytes), (vec![u128::MAX, 0, 300], true));
}

#[test]
fn reading_stops_at_the_first_malformed_number() {
    assert_eq!(read_integers(&vec![0x05, 0x80]), (vec![5], false));
    assert_eq!(read_integers(&vec![0x80]), (vec![], false));
    let mut bytes = vec![0x01];
    bytes.extend(vec![0xff; 19]);
    bytes.push(0x01);
    bytes.push(0x02);
    assert_eq!(read_integers(&bytes), (vec![1], false));
}
