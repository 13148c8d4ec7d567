//! Content wrapped in the witness data of a transaction.
//!
//! An envelope opens with a marker. The type of the content follows as
//! one push: a byte that says how many bytes it has, and the bytes. A zero
//! byte parts the type from the body; the body follows in pushes; a
//! closing byte ends the envelope.

use vstd::prelude::*;

verus! {

/// The byte that ends an envelope.
pub const CLOSING: u8 = 0x68;

/// The byte that parts the type of the content from its body.
pub const SEPARATOR: u8 = 0x00;

/// No push holds more bytes than this.
pub const MAX_PUSH: u8 = 75;

/// How many bytes the opening marker has.
pub const OPENING_LEN: usize = 6;

/// Content found in an envelope.
#[derive(Clone, Debug, PartialEq, Eq)]
pub struct Content {
    pub content_type: Vec<u8>,
    pub body: Vec<u8>,
}

/// Content found in an envelope, as a mathematical value.
pub struct ContentView {
    pub content_type: Seq<u8>,
    pub body: Seq<u8>,
}

impl View for Content {
    type V = ContentView;

    open spec fn view(&self) -> ContentView {
        ContentView { content_type: self.content_type@, body: self.body@ }
    }
}

/// The view of what may be content.
pub open spec fn content_view(content: Option<Content>) -> Option<ContentView> {
    match content {
        Some(c) => Some(c@),
        None => None,
    }
}

/// Whether the opening marker stands at index `at` of `bytes`.
pub open spec fn opens_at(bytes: Seq<u8>, at: int) -> bool {
    &&& 0 <= at
    &&& at + OPENING_LEN <= bytes.len()
    &&& bytes[at] == 0x00
    &&& bytes[at + 1] == 0x63
    &&& bytes[at + 2] == 0x03
    &&& bytes[at + 3] == 0x6f
    &&& bytes[at + 4] == 0x72
    &&& bytes[at + 5] == 0x64
}

/// Whether a whole push stands at index `at` of `bytes`.
pub open spec fn push_at(bytes: Seq<u8>, at: int) -> bool {
    0 <= at < bytes.len() && 1 <= bytes[at] <= MAX_PUSH && at + 1 + bytes[at] <= bytes.len()
}

/// The bytes of the push at index `at`.
pub open spec fn pushed(bytes: Seq<u8>, at: int) -> Seq<u8> {
    bytes.subrange(at + 1, at + 1 + bytes[at])
}

/// The body that starts at index `at`: the bytes of its pushes up to the
/// closing byte; `None` where the bytes end, or hold no push, before it.
pub open spec fn body_from(bytes: Seq<u8>, at: int) -> Option<Seq<u8>>
    decreases bytes.len() - at,
{
    if at < 0 || at >= bytes.len() {
        None
    } else if bytes[at] == CLOSING {
        Some(Seq::empty())
    } else if push_at(bytes, at) {
        match body_from(bytes, at + 1 + bytes[at]) {
            Some(rest) => Some(pushed(bytes, at) + rest),
            None => None,
        }
    } else {
        None
    }
}

/// The content of the envelope that opens at index `at`, where a whole
/// envelope stands there.
pub open spec fn envelope_at(bytes: Seq<u8>, at: int) -> Option<ContentView> {
    let kind = at + OPENING_LEN;
    let parted = kind + 1 + bytes[kind];
    if opens_at(bytes, at) && push_at(bytes, kind) && parted < bytes.len() && bytes[parted]
        == SEPARATOR {
        match body_from(bytes, parted + 1) {
            Some(body) => Some(ContentView { content_type: pushed(bytes, kind), body }),
            None => None,
        }
    } else {
        None
    }
}

/// The content of the first whole envelope that opens at or after index
/// `from`.
pub open spec fn content_from(bytes: Seq<u8>, from: int) -> Option<ContentView>
    decreases bytes.len() - from,
{
    if from < 0 || from >= bytes.len() {
        None
    } else if envelope_at(bytes, from) is Some {
        envelope_at(bytes, from)
    } else {
        content_from(bytes, from + 1)
    }
}

/// The content of the first whole envelope in `bytes`.
pub open spec fn content_of(bytes: Seq<u8>) -> Option<ContentView> {
    content_from(bytes, 0)
}

/// Whether the opening marker stands at index `at` of `bytes`.
pub fn is_opening(bytes: &Vec<u8>, at: usize) -> (opens: bool)
    ensures
        opens == opens_at(bytes@, at as int),
{
    if bytes.len() < OPENING_LEN || at > bytes.len() - OPENING_LEN {
        return false;
    }
    bytes[at] == 0x00 && bytes[at + 1] == 0x63 && bytes[at + 2] == 0x03 && bytes[at + 3] == 0x6f
        && bytes[at + 4] == 0x72 && bytes[at + 5] == 0x64
}

/// Whether a whole push stands at index `at` of `bytes`.
pub fn is_push(bytes: &Vec<u8>, at: usize) -> (whole: bool)
    ensures
        whole == push_at(bytes@, at as int),
{
    if at >= bytes.len() {
        return false;
    }
    let count = bytes[at];
    1 <= count && count <= MAX_PUSH && count as usize <= bytes.len() - at - 1
}

/// Adds the bytes of the push at index `at` to `into`.
fn take_push(bytes: &Vec<u8>, at: usize, into: &mut Vec<u8>)
    requires
        push_at(bytes@, at as int),
    ensures
        final(into)@ == old(into)@ + pushed(bytes@, at as int),
{
    let count = bytes[at] as usize;
    let len = bytes.len();
    let mut i: usize = 0;
    while i < count
        invariant
            i <= count,
            count == bytes@[at as int],
            at + 1 + count <= bytes@.len(),
            bytes@.len() == len,
            into@ == old(into)@ + bytes@.subrange(at + 1, at + 1 + i),
        decreases count - i,
    {
        into.push(bytes[at + 1 + i]);
        i += 1;
        assert(into@ =~= old(into)@ + bytes@.subrange(at + 1, at + 1 + i));
    }
}

/// Reads the body that starts at index `at`.
pub fn read_body(bytes: &Vec<u8>, at: usize) -> (body: Option<Vec<u8>>)
    ensures
        match body {
            Some(b) => body_from(bytes@, at as int) == Some(b@),
            None => body_from(bytes@, at as int) is None,
        },
{
    let mut body: Vec<u8> = Vec::new();
    let len = bytes.len();
    let mut i: usize = at;
    loop
        invariant
            at <= i,
            bytes@.len() == len,
            match body_from(bytes@, i as int) {
                Some(rest) => body_from(bytes@, at as int) == Some(body@ + rest),
                None => body_from(bytes@, at as int) is None,
            },
        decreases bytes@.len() - i,
    {
        if i >= bytes.len() {
            return None;
        }
        if bytes[i] == CLOSING {
            assert(body@ + Seq::<u8>::empty() =~= body@);
            return Some(body);
        }
        if !is_push(bytes, i) {
            return None;
        }
        let ghost had = body@;
        take_push(bytes, i, &mut body);
        proof {
            let next = i + 1 + bytes@[i as int];
            match body_from(bytes@, next) {
                Some(rest) => {
                    assert(body@ + rest =~= had + (pushed(bytes@, i as int) + rest));
                },
                None => {},
            }
        }
        i = i + 1 + bytes[i] as usize;
    }
}

/// Reads the envelope that opens at index `at`.
pub fn read_envelope_at(bytes: &Vec<u8>, at: usize) -> (content: Option<Content>)
    ensures
        content_view(content) == envelope_at(bytes@, at as int),
{
    let len = bytes.len();
    if !is_opening(bytes, at) {
        return None;
    }
    assert(at + OPENING_LEN <= len);
    let kind = at + OPENING_LEN;
    if !is_push(bytes, kind) {
        return None;
    }
    let parted = kind + 1 + bytes[kind] as usize;
    if parted >= bytes.len() || bytes[parted] != SEPARATOR {
        return None;
    }
    match read_body(bytes, parted + 1) {
        Some(body) => {
            let mut content_type: Vec<u8> = Vec::new();
            take_push(bytes, kind, &mut content_type);
            assert(content_type@ =~= pushed(bytes@, kind as int));
            Some(Content { content_type, body })
        },
        None => None,
    }
}

/// Reads the first whole envelope in `bytes`.
pub fn read_envelope(bytes: &Vec<u8>) -> (content: Option<Content>)
    ensures
        content_view(content) == content_of(bytes@),
{
    let mut from: usize = 0;
    while from < bytes.len()
        invariant
            content_from(bytes@, from as int) == content_of(bytes@),
        decreases bytes@.len() - from,
    {
        match read_envelope_at(bytes, from) {
            Some(content) => {
                return Some(content);
            },
            None => {},
        }
        from += 1;
    }
    None
}

} // verus!
