//! The wire format, stated over byte sequences.
//!
//! A data line is one tag byte, eight bytes of payload length (unsigned,
//! big-endian) and the payload. The payload of an array is a run of entries,
//! each the data line of an element and a continuation byte: 1 if another
//! entry follows, 0 after the last. An object entry starts with the
//! eight-byte length of its key and the key in UTF-8; the data line of the
//! value and the continuation byte follow.
//!
//! Encoding is total. Decoding reads from a place in the buffer onwards, and
//! the functions here take the bytes from that place to the buffer's end:
//!
//! - A length is held against the end of the buffer, not against the length
//!   of the payload that it lies in. The length of a payload says how many
//!   bytes a scalar is read from, and where reading goes on after the data
//!   line; the entries of an object or array are read until one ends in the
//!   continuation byte 0, however long the payload is said to be.
//! - A payload holds one entry at least. An object or array without entries
//!   encodes to an empty payload; on its own that data line is refused as
//!   truncated.
//! - Bytes that follow a data line are not looked at, nor are payload bytes
//!   of an integer or a float after the first eight.
//! - A key that comes twice in one object payload keeps its first place and
//!   takes the later value.

use crate::bytes::{be_i64, be_u64, i64_be_bytes, u64_be_bytes};
use crate::doc::DocValue;
use crate::error::DecodeError;
use crate::tree::{put, DocTree};
use vstd::prelude::*;
use vstd::utf8::{decode_utf8, encode_utf8, valid_utf8};

verus! {

/// The type tag of an object.
pub const TAG_OBJECT: u8 = 0;

/// The type tag of an array.
pub const TAG_VEC: u8 = 1;

/// The type tag of raw bytes.
pub const TAG_BINARY: u8 = 2;

/// The type tag of text.
pub const TAG_STRING: u8 = 3;

/// The type tag of an integer.
pub const TAG_NUM: u8 = 4;

/// The type tag of a float.
pub const TAG_FLOAT: u8 = 5;

/// The type tag of a boolean.
pub const TAG_BOOL: u8 = 6;

/// The type tag of the null node.
pub const TAG_NULL: u8 = 7;

/// The type tag of a node.
pub open spec fn tag_of(t: DocTree) -> u8 {
    match t {
        DocTree::Object(_) => TAG_OBJECT,
        DocTree::Array(_) => TAG_VEC,
        DocTree::Binary(_) => TAG_BINARY,
        DocTree::String(_) => TAG_STRING,
        DocTree::Int64(_) => TAG_NUM,
        DocTree::Float64(_) => TAG_FLOAT,
        DocTree::Bool(_) => TAG_BOOL,
        DocTree::Null => TAG_NULL,
    }
}

/// A data line: the tag, the length of the payload, the payload.
pub open spec fn data_line(tag: u8, payload: Seq<u8>) -> Seq<u8> {
    seq![tag] + u64_be_bytes(payload.len() as u64) + payload
}

/// The continuation byte after an entry.
pub open spec fn continue_byte(more: bool) -> u8 {
    if more {
        1
    } else {
        0
    }
}

/// A data line as an entry holds it: the line, then one byte.
pub open spec fn ended_with(line: Seq<u8>, last: u8) -> Seq<u8> {
    line + seq![last]
}

/// A data line as an entry holds it: the line, then the continuation byte.
pub open spec fn ended(line: Seq<u8>, more: bool) -> Seq<u8> {
    ended_with(line, continue_byte(more))
}

/// The UTF-8 of a text.
#[verifier::opaque]
pub open spec fn utf8_of(text: Seq<char>) -> Seq<u8> {
    encode_utf8(text)
}

/// A key as an object entry holds it: its length in bytes, then its UTF-8.
pub open spec fn framed_key(key: Seq<char>) -> Seq<u8> {
    u64_be_bytes(utf8_of(key).len() as u64) + utf8_of(key)
}

/// The data line of a node.
pub open spec fn encode(t: DocTree) -> Seq<u8>
    decreases t, 1int,
{
    data_line(tag_of(t), payload_of(t))
}

/// The payload of a node.
pub open spec fn payload_of(t: DocTree) -> Seq<u8>
    decreases t, 0int,
{
    match t {
        DocTree::Object(entries) => encode_fields(entries),
        DocTree::Array(items) => encode_items(items),
        DocTree::Binary(b) => b,
        DocTree::String(s) => utf8_of(s),
        DocTree::Int64(n) => i64_be_bytes(n),
        DocTree::Float64(bits) => u64_be_bytes(bits),
        DocTree::Bool(b) => seq![
            if b {
                1u8
            } else {
                0u8
            },
        ],
        DocTree::Null => seq![0u8],
    }
}

/// The payload of an array: one entry for each element, in order.
pub open spec fn encode_items(items: Seq<DocTree>) -> Seq<u8>
    decreases items, 0int,
{
    if items.len() == 0 {
        Seq::empty()
    } else {
        ended(encode(items[0]), items.len() > 1) + encode_items(items.drop_first())
    }
}

/// The payload of an object: one entry for each key, in order.
pub open spec fn encode_fields(entries: Seq<(Seq<char>, DocTree)>) -> Seq<u8>
    decreases entries, 0int,
{
    if entries.len() == 0 {
        Seq::empty()
    } else {
        framed_key(entries[0].0) + ended(encode(entries[0].1), entries.len() > 1) + encode_fields(
            entries.drop_first(),
        )
    }
}

/// What a decoder hands back, as mathematics sees it.
pub open spec fn decoded(r: Result<DocValue, DecodeError>) -> Result<DocTree, DecodeError> {
    match r {
        Ok(v) => Ok(v@),
        Err(e) => Err(e),
    }
}

/// The length field at the start of `s`: eight bytes, unsigned, big-endian.
pub open spec fn len_field(s: Seq<u8>) -> int {
    be_u64(s.take(8))
}

/// `s` starts with a tag and a length field, and holds as many bytes after
/// them as the field says.
pub open spec fn has_line(s: Seq<u8>) -> bool {
    s.len() >= 9 && len_field(s.skip(1)) <= s.skip(1).skip(8).len()
}

/// What follows the tag and the length field at the start of `s`.
pub open spec fn body_of(s: Seq<u8>) -> Seq<u8> {
    s.skip(1).skip(8)
}

/// What follows the data line at the start of `s`.
pub open spec fn after_line(s: Seq<u8>) -> Seq<u8> {
    s.skip(1).skip(8).skip(len_field(s.skip(1)))
}

/// The node that the data line at the start of `s` spells, where `s` goes
/// on to the end of the buffer.
pub open spec fn parse(s: Seq<u8>) -> Result<DocTree, DecodeError>
    decreases s.len(), 1int,
{
    if !has_line(s) {
        Err(DecodeError::Truncated)
    } else {
        parse_payload(s[0], body_of(s), len_field(s.skip(1)))
    }
}

/// How far a reader gets in `s` when it reads the data line at its start:
/// past the tag, past the length, and past the payload where it is all there.
pub open spec fn line_consumed(s: Seq<u8>) -> int {
    if s.len() < 1 {
        0
    } else if s.len() < 9 {
        1
    } else if len_field(s.skip(1)) > s.len() - 9 {
        9
    } else {
        9 + len_field(s.skip(1))
    }
}

/// The node that a payload of `n` bytes spells under a tag, where `body`
/// starts with the payload and goes on to the end of the buffer. A scalar is
/// read from the `n` bytes; the entries of an object or array are read from
/// `body` until one ends in the continuation byte 0.
pub open spec fn parse_payload(tag: u8, body: Seq<u8>, n: int) -> Result<DocTree, DecodeError>
    decreases body.len(), 3int,
{
    if tag == TAG_OBJECT {
        match parse_fields(body, Seq::empty()) {
            Ok(entries) => Ok(DocTree::Object(entries)),
            Err(e) => Err(e),
        }
    } else if tag == TAG_VEC {
        match parse_items(body, Seq::empty()) {
            Ok(items) => Ok(DocTree::Array(items)),
            Err(e) => Err(e),
        }
    } else {
        parse_scalar(tag, body.take(n))
    }
}

/// The object that the entries at the start of `body` spell.
pub open spec fn parse_object(body: Seq<u8>) -> Result<DocTree, DecodeError> {
    match parse_fields(body, Seq::empty()) {
        Ok(entries) => Ok(DocTree::Object(entries)),
        Err(e) => Err(e),
    }
}

/// The array that the entries at the start of `body` spell.
pub open spec fn parse_array(body: Seq<u8>) -> Result<DocTree, DecodeError> {
    match parse_items(body, Seq::empty()) {
        Ok(items) => Ok(DocTree::Array(items)),
        Err(e) => Err(e),
    }
}

/// The scalar that a payload spells under a tag.
pub open spec fn parse_scalar(tag: u8, p: Seq<u8>) -> Result<DocTree, DecodeError> {
    if tag == TAG_BINARY {
        Ok(DocTree::Binary(p))
    } else if tag == TAG_STRING {
        parse_string(p)
    } else if tag == TAG_NUM {
        parse_num(p)
    } else if tag == TAG_FLOAT {
        parse_float(p)
    } else if tag == TAG_BOOL {
        parse_bool(p)
    } else if tag == TAG_NULL {
        parse_null(p)
    } else {
        Err(DecodeError::UnknownTag)
    }
}

/// The text that bytes spell in UTF-8, if they spell one.
#[verifier::opaque]
pub open spec fn text_of(bytes: Seq<u8>) -> Option<Seq<char>> {
    if valid_utf8(bytes) {
        Some(decode_utf8(bytes))
    } else {
        None
    }
}

/// The UTF-8 of a text spells that text.
pub proof fn lemma_text_round_trip(text: Seq<char>)
    ensures
        text_of(utf8_of(text)) == Some(text),
{
    reveal(text_of);
    reveal(utf8_of);
    vstd::utf8::encode_utf8_valid_utf8(text);
    vstd::utf8::encode_utf8_decode_utf8(text);
}

/// A string payload is the UTF-8 of its text.
pub open spec fn parse_string(p: Seq<u8>) -> Result<DocTree, DecodeError> {
    match text_of(p) {
        Some(text) => Ok(DocTree::String(text)),
        None => Err(DecodeError::InvalidUtf8),
    }
}

/// An integer payload is read from its first eight bytes.
pub open spec fn parse_num(p: Seq<u8>) -> Result<DocTree, DecodeError> {
    if p.len() < 8 {
        Err(DecodeError::Truncated)
    } else {
        Ok(DocTree::Int64(be_i64(p.take(8)) as i64))
    }
}

/// A float payload is read from its first eight bytes.
pub open spec fn parse_float(p: Seq<u8>) -> Result<DocTree, DecodeError> {
    if p.len() < 8 {
        Err(DecodeError::Truncated)
    } else {
        Ok(DocTree::Float64(be_u64(p.take(8)) as u64))
    }
}

/// A boolean payload is the single byte 0 or 1.
pub open spec fn parse_bool(p: Seq<u8>) -> Result<DocTree, DecodeError> {
    if p.len() == 1 && p[0] == 0 {
        Ok(DocTree::Bool(false))
    } else if p.len() == 1 && p[0] == 1 {
        Ok(DocTree::Bool(true))
    } else {
        Err(DecodeError::InvalidBool)
    }
}

/// A null payload is the single byte 0.
pub open spec fn parse_null(p: Seq<u8>) -> Result<DocTree, DecodeError> {
    if p.len() == 1 && p[0] == 0 {
        Ok(DocTree::Null)
    } else {
        Err(DecodeError::InvalidNull)
    }
}

/// `q` starts with a length field and holds as many bytes after it as the
/// field says.
pub open spec fn has_nested(q: Seq<u8>) -> bool {
    q.len() >= 8 && len_field(q) <= q.skip(8).len()
}

/// The bytes that the length field at the start of `q` counts.
pub open spec fn nested(q: Seq<u8>) -> Seq<u8> {
    q.skip(8).take(len_field(q))
}

/// What follows the length field at the start of `q` and the bytes that it
/// counts.
pub open spec fn after_nested(q: Seq<u8>) -> Seq<u8> {
    q.skip(8).skip(len_field(q))
}

/// How far a reader gets in `q` when it reads a length field and then as
/// many bytes as the field says.
pub open spec fn nested_consumed(q: Seq<u8>) -> int {
    if q.len() < 8 {
        0
    } else if len_field(q) > q.skip(8).len() {
        8
    } else {
        8 + len_field(q)
    }
}

/// The key at the start of `p`: its eight-byte length, then its UTF-8.
pub open spec fn parse_key(p: Seq<u8>) -> Result<Seq<char>, DecodeError> {
    if !has_nested(p) {
        Err(DecodeError::Truncated)
    } else {
        match text_of(nested(p)) {
            Some(key) => Ok(key),
            None => Err(DecodeError::InvalidUtf8),
        }
    }
}

/// What reading one entry comes to.
pub enum Step<T> {
    /// The entry was read and another follows.
    More(T),
    /// The entry was read and is the last.
    Last(T),
    /// The entry is refused.
    Fail(DecodeError),
}

/// What the byte after an entry makes of the entry.
pub open spec fn step_after<T>(rest: Seq<u8>, entry: T) -> Step<T> {
    if rest.len() < 1 {
        Step::Fail(DecodeError::Truncated)
    } else if rest[0] == 1 {
        Step::More(entry)
    } else if rest[0] == 0 {
        Step::Last(entry)
    } else {
        Step::Fail(DecodeError::InvalidContinuation)
    }
}

/// Reading the array entry at the start of `p`: the data line, then the
/// continuation byte.
#[verifier::opaque]
pub open spec fn item_step(p: Seq<u8>) -> Step<DocTree> {
    match parse(p) {
        Err(e) => Step::Fail(e),
        Ok(item) => step_after(after_line(p), item),
    }
}

/// How far a reader gets in `p` when it reads one array entry.
#[verifier::opaque]
pub open spec fn item_consumed(p: Seq<u8>) -> int {
    if parse(p) is Err || after_line(p).len() < 1 {
        line_consumed(p)
    } else {
        line_consumed(p) + 1
    }
}

/// Reading the object entry at the start of `p`: the key, the data line,
/// then the continuation byte.
#[verifier::opaque]
pub open spec fn field_step(p: Seq<u8>) -> Step<(Seq<char>, DocTree)> {
    match parse_key(p) {
        Err(e) => Step::Fail(e),
        Ok(key) => match parse(after_nested(p)) {
            Err(e) => Step::Fail(e),
            Ok(value) => step_after(after_line(after_nested(p)), (key, value)),
        },
    }
}

/// How far a reader gets in `p` when it reads one object entry.
#[verifier::opaque]
pub open spec fn field_consumed(p: Seq<u8>) -> int {
    if parse_key(p) is Err {
        nested_consumed(p)
    } else {
        nested_consumed(p) + item_consumed(after_nested(p))
    }
}

/// Reading array entries is reading one entry and then, if another follows,
/// the entries after it.
pub proof fn lemma_items_by_step(p: Seq<u8>, seen: Seq<DocTree>)
    ensures
        parse_items(p, seen) == match item_step(p) {
            Step::Fail(e) => Err::<Seq<DocTree>, DecodeError>(e),
            Step::Last(item) => Ok(seen.push(item)),
            Step::More(item) => parse_items(after_line(p).skip(1), seen.push(item)),
        },
        items_consumed(p) == match item_step(p) {
            Step::More(_) => item_consumed(p) + items_consumed(after_line(p).skip(1)),
            _ => item_consumed(p),
        },
{
    reveal(item_step);
    reveal(item_consumed);
}

/// Reading object entries is reading one entry and then, if another
/// follows, the entries after it.
pub proof fn lemma_fields_by_step(p: Seq<u8>, seen: Seq<(Seq<char>, DocTree)>)
    ensures
        parse_fields(p, seen) == match field_step(p) {
            Step::Fail(e) => Err::<Seq<(Seq<char>, DocTree)>, DecodeError>(e),
            Step::Last(entry) => Ok(put(seen, entry.0, entry.1)),
            Step::More(entry) => parse_fields(
                after_line(after_nested(p)).skip(1),
                put(seen, entry.0, entry.1),
            ),
        },
        fields_consumed(p) == match field_step(p) {
            Step::More(_) => field_consumed(p) + fields_consumed(
                after_line(after_nested(p)).skip(1),
            ),
            _ => field_consumed(p),
        },
{
    reveal(field_step);
    reveal(field_consumed);
    reveal(item_consumed);
}

/// The elements that the entries at the start of `p` spell, after those
/// already read. At least one entry is read; reading stops after the first
/// entry whose continuation byte is 0.
pub open spec fn parse_items(p: Seq<u8>, seen: Seq<DocTree>) -> Result<Seq<DocTree>, DecodeError>
    decreases p.len(), 2int,
{
    if !has_line(p) {
        Err(DecodeError::Truncated)
    } else {
        match parse(p) {
            Err(e) => Err(e),
            Ok(item) => {
                let rest = after_line(p);
                if rest.len() < 1 {
                    Err(DecodeError::Truncated)
                } else if rest[0] == 1 {
                    parse_items(rest.skip(1), seen.push(item))
                } else if rest[0] == 0 {
                    Ok(seen.push(item))
                } else {
                    Err(DecodeError::InvalidContinuation)
                }
            },
        }
    }
}

/// How far a reader gets in `p` when it reads array entries from its start.
pub open spec fn items_consumed(p: Seq<u8>) -> int
    decreases p.len(),
{
    if !has_line(p) || parse(p) is Err || after_line(p).len() < 1 {
        line_consumed(p)
    } else if after_line(p)[0] == 1 {
        line_consumed(p) + 1 + items_consumed(after_line(p).skip(1))
    } else {
        line_consumed(p) + 1
    }
}

/// The entries that the object entries at the start of `p` spell, after
/// those already read. A key that was read before takes the later value.
pub open spec fn parse_fields(p: Seq<u8>, seen: Seq<(Seq<char>, DocTree)>) -> Result<
    Seq<(Seq<char>, DocTree)>,
    DecodeError,
>
    decreases p.len(), 2int,
{
    match parse_key(p) {
        Err(e) => Err(e),
        Ok(key) => {
            let q = after_nested(p);
            if !has_line(q) {
                Err(DecodeError::Truncated)
            } else {
                match parse(q) {
                    Err(e) => Err(e),
                    Ok(value) => {
                        let rest = after_line(q);
                        if rest.len() < 1 {
                            Err(DecodeError::Truncated)
                        } else if rest[0] == 1 {
                            parse_fields(rest.skip(1), put(seen, key, value))
                        } else if rest[0] == 0 {
                            Ok(put(seen, key, value))
                        } else {
                            Err(DecodeError::InvalidContinuation)
                        }
                    },
                }
            }
        },
    }
}

/// How far a reader gets in `p` when it reads object entries from its start.
pub open spec fn fields_consumed(p: Seq<u8>) -> int
    decreases p.len(),
{
    let q = after_nested(p);
    if parse_key(p) is Err {
        nested_consumed(p)
    } else if !has_line(q) || parse(q) is Err || after_line(q).len() < 1 {
        nested_consumed(p) + line_consumed(q)
    } else if after_line(q)[0] == 1 {
        nested_consumed(p) + line_consumed(q) + 1 + fields_consumed(after_line(q).skip(1))
    } else {
        nested_consumed(p) + line_consumed(q) + 1
    }
}

} // verus!
