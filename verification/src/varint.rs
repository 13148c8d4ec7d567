//! Numbers of up to 128 bits in bytes: seven bits to a byte, the low bits
//! first, the high bit set on every byte but the last.

use vstd::prelude::*;

verus! {

/// No number takes more bytes than this.
pub const MAX_VARINT_LEN: usize = 19;

/// The number that the low seven bits of each byte spell, the first byte
/// holding the lowest bits.
pub open spec fn digits_value(digits: Seq<u8>) -> nat
    decreases digits.len(),
{
    if digits.len() == 0 {
        0
    } else {
        (digits[0] % 128) as nat + 128 * digits_value(digits.skip(1))
    }
}

/// How many bytes the number at the front of `bytes` takes: up to and with
/// the first byte whose high bit is clear; 0 where there is no such byte.
pub open spec fn varint_len(bytes: Seq<u8>) -> nat
    decreases bytes.len(),
{
    if bytes.len() == 0 {
        0
    } else if bytes[0] < 128 {
        1
    } else if varint_len(bytes.skip(1)) == 0 {
        0
    } else {
        varint_len(bytes.skip(1)) + 1
    }
}

/// The number at the front of `bytes` and how many bytes it takes; `None`
/// where the bytes end before the number does, where it takes more than 19
/// bytes, and where it does not fit in 128 bits.
pub open spec fn varint(bytes: Seq<u8>) -> Option<(u128, nat)> {
    let len = varint_len(bytes);
    if 0 < len <= MAX_VARINT_LEN && digits_value(bytes.take(len as int)) <= u128::MAX {
        Some((digits_value(bytes.take(len as int)) as u128, len))
    } else {
        None
    }
}

/// The numbers that `bytes` spell one after the other, up to the end or to
/// the first that is malformed.
pub open spec fn integers(bytes: Seq<u8>) -> Seq<u128>
    decreases bytes.len(),
{
    match varint(bytes) {
        Some((value, len)) => if 0 < len <= bytes.len() {
            seq![value] + integers(bytes.skip(len as int))
        } else {
            Seq::empty()
        },
        None => Seq::empty(),
    }
}

/// Whether `bytes` are well-formed numbers from the first byte to the
/// last.
pub open spec fn well_encoded(bytes: Seq<u8>) -> bool
    decreases bytes.len(),
{
    if bytes.len() == 0 {
        true
    } else {
        match varint(bytes) {
            Some((value, len)) => 0 < len <= bytes.len() && well_encoded(bytes.skip(len as int)),
            None => false,
        }
    }
}

/// The length of a number is the index of the first byte with a clear
/// high bit, plus one.
pub proof fn lemma_varint_len(bytes: Seq<u8>, count: int)
    requires
        0 <= count <= bytes.len(),
        forall|j: int| 0 <= j < count ==> #[trigger] bytes[j] >= 128,
    ensures
        count < bytes.len() && bytes[count] < 128 ==> varint_len(bytes) == count + 1,
        count == bytes.len() ==> varint_len(bytes) == 0,
        varint_len(bytes) == 0 || varint_len(bytes) > count,
        varint_len(bytes) <= bytes.len(),
    decreases bytes.len(),
{
    if bytes.len() > 0 {
        let rest = bytes.skip(1);
        if count > 0 {
            assert(bytes[0] >= 128);
            assert forall|j: int| 0 <= j < count - 1 implies #[trigger] rest[j] >= 128 by {
                assert(rest[j] == bytes[j + 1]);
            }
            lemma_varint_len(rest, count - 1);
            if count < bytes.len() {
                assert(rest[count - 1] == bytes[count]);
            }
        } else {
            lemma_varint_len(rest, 0);
        }
    }
}

/// The high digits of a number alone spell no more than the number.
pub proof fn lemma_digits_grow(digits: Seq<u8>, from: int)
    requires
        0 <= from <= digits.len(),
    ensures
        digits_value(digits.skip(from)) <= digits_value(digits),
    decreases from,
{
    if from == 0 {
        assert(digits.skip(0) =~= digits);
    } else {
        lemma_digits_grow(digits, from - 1);
        let longer = digits.skip(from - 1);
        assert(longer.skip(1) =~= digits.skip(from));
    }
}

/// Reads the number that starts at index `start` of `bytes`. Returns it
/// with the index after its last byte; nothing where `start` is beyond
/// the bytes.
pub fn read_varint(bytes: &Vec<u8>, start: usize) -> (read: Option<(u128, usize)>)
    ensures
        start > bytes@.len() ==> read is None,
        start <= bytes@.len() ==> match varint(bytes@.skip(start as int)) {
            Some((value, len)) => read == Some((value, (start + len) as usize)) && start + len
                <= bytes@.len(),
            None => read is None,
        },
{
    if start > bytes.len() {
        return None;
    }
    let ghost tail = bytes@.skip(start as int);
    let room = bytes.len() - start;
    let mut count: usize = 0;
    while count < MAX_VARINT_LEN && count < room && bytes[start + count] >= 128
        invariant
            count <= MAX_VARINT_LEN,
            count <= room,
            start + room == bytes@.len(),
            bytes@.len() <= usize::MAX,
            tail == bytes@.skip(start as int),
            forall|j: int| 0 <= j < count ==> #[trigger] tail[j] >= 128,
        decreases MAX_VARINT_LEN - count,
    {
        assert(tail[count as int] == bytes@[start + count]);
        count += 1;
    }
    proof {
        lemma_varint_len(tail, count as int);
    }
    if count >= MAX_VARINT_LEN || count >= room {
        return None;
    }
    assert(tail[count as int] == bytes@[start + count]);
    let len = count + 1;
    let ghost digits = tail.take(len as int);
    let mut value: u128 = 0;
    let mut left: usize = len;
    proof {
        assert(digits.skip(len as int) =~= Seq::<u8>::empty());
    }
    while left > 0
        invariant
            left <= len,
            len == count + 1,
            0 < len <= MAX_VARINT_LEN,
            start + len <= bytes@.len(),
            bytes@.len() <= usize::MAX,
            tail == bytes@.skip(start as int),
            varint_len(tail) == len,
            digits == tail.take(len as int),
            value == digits_value(digits.skip(left as int)),
        decreases left,
    {
        left -= 1;
        let digit = (bytes[start + left] % 128) as u128;
        proof {
            let longer = digits.skip(left as int);
            assert(longer.skip(1) =~= digits.skip(left + 1));
            assert(longer[0] == bytes@[start + left]);
            lemma_digits_grow(digits, left as int);
        }
        let scaled = match value.checked_mul(128) {
            Some(scaled) => scaled,
            None => {
                return None;
            },
        };
        value = match scaled.checked_add(digit) {
            Some(sum) => sum,
            None => {
                return None;
            },
        };
    }
    assert(digits.skip(0) =~= digits);
    Some((value, start + len))
}

/// Reads the numbers of `bytes` one after the other. Returns them, up to
/// the first that is malformed, and whether none was.
pub fn read_integers(bytes: &Vec<u8>) -> (read: (Vec<u128>, bool))
    ensures
        read.0@ == integers(bytes@),
        read.1 == well_encoded(bytes@),
{
    let mut values: Vec<u128> = Vec::new();
    let mut at: usize = 0;
    proof {
        assert(bytes@.skip(0) =~= bytes@);
    }
    while at < bytes.len()
        invariant
            at <= bytes@.len(),
            values@ + integers(bytes@.skip(at as int)) == integers(bytes@),
            well_encoded(bytes@.skip(at as int)) == well_encoded(bytes@),
        decreases bytes@.len() - at,
    {
        let ghost tail = bytes@.skip(at as int);
        let ghost had = values@;
        match read_varint(bytes, at) {
            Some((value, next)) => {
                proof {
                    lemma_varint_len(tail, 0);
                    assert(tail.skip(next - at) =~= bytes@.skip(next as int));
                    assert(had.push(value) + integers(bytes@.skip(next as int)) =~= had + (
                    seq![value] + integers(bytes@.skip(next as int))));
                }
                values.push(value);
                at = next;
            },
            None => {
                assert(values@ + Seq::<u128>::empty() =~= values@);
                return (values, false);
            },
        }
    }
    assert(values@ + Seq::<u128>::empty() =~= values@);
    (values, true)
}

} // verus!
