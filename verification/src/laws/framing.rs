//! The frame of a data line: what its first nine bytes say, and what becomes
//! of a data line that is cut short.

use crate::bytes::{lemma_u64_round_trip, u64_be_bytes};
use crate::error::DecodeError;
use crate::tree::DocTree;
use crate::wire::{
    after_line, after_nested, body_of, data_line, encode, encode_fields, encode_items, framed_key,
    has_line, has_nested, lemma_text_round_trip, len_field, line_consumed, parse, parse_key,
    parse_payload, payload_of, tag_of, utf8_of,
};
use vstd::prelude::*;

verus! {

/// **Framing.** The data line of a node is nine bytes longer than its
/// payload, and its length field holds the length of the payload.
pub proof fn lemma_framing(t: DocTree)
    requires
        encode(t).len() <= u64::MAX,
    ensures
        encode(t).len() == 9 + payload_of(t).len(),
        encode(t)[0] == tag_of(t),
        len_field(encode(t).skip(1)) == encode(t).len() - 9,
        body_of(encode(t)) == payload_of(t),
{
    lemma_line_split(tag_of(t), payload_of(t), Seq::empty());
    assert(encode(t) + Seq::<u8>::empty() == encode(t));
    assert(payload_of(t) + Seq::<u8>::empty() == payload_of(t));
}

/// **Truncation safety.** A data line from which one byte or more is cut
/// off at the end is refused as truncated.
pub proof fn lemma_truncation(t: DocTree, n: int)
    requires
        encode(t).len() <= u64::MAX,
        0 <= n < encode(t).len(),
    ensures
        parse(encode(t).take(n)) == Err::<DocTree, DecodeError>(DecodeError::Truncated),
{
    lemma_framing(t);
    let cut = encode(t).take(n);
    if n >= 9 {
        assert(cut.skip(1).take(8) == encode(t).skip(1).take(8));
    }
}

/// A data line that is followed by `tail`: its length field reads back as
/// the length of the payload, the payload and `tail` follow the field, and
/// `tail` follows the line.
pub proof fn lemma_line_split(tag: u8, payload: Seq<u8>, tail: Seq<u8>)
    requires
        payload.len() <= u64::MAX,
    ensures
        (data_line(tag, payload) + tail).len() == 9 + payload.len() + tail.len(),
        has_line(data_line(tag, payload) + tail),
        (data_line(tag, payload) + tail)[0] == tag,
        len_field((data_line(tag, payload) + tail).skip(1)) == payload.len(),
        body_of(data_line(tag, payload) + tail) == payload + tail,
        after_line(data_line(tag, payload) + tail) == tail,
        line_consumed(data_line(tag, payload) + tail) == 9 + payload.len(),
{
    let field = u64_be_bytes(payload.len() as u64);
    let s = data_line(tag, payload) + tail;
    lemma_u64_round_trip(payload.len() as u64);
    assert(s.skip(1).take(8) == field);
    assert(s.skip(1).skip(8) == payload + tail);
    assert(s.skip(1).skip(8).skip(payload.len() as int) == tail);
}

/// A data line spells what its payload spells under its tag, whatever
/// follows the line.
pub proof fn lemma_parse_line(tag: u8, payload: Seq<u8>, tail: Seq<u8>)
    requires
        payload.len() <= u64::MAX,
    ensures
        parse(data_line(tag, payload) + tail) == parse_payload(
            tag,
            payload + tail,
            payload.len() as int,
        ),
{
    lemma_line_split(tag, payload, tail);
}

/// A key that is followed by `tail` reads back as the key, and `tail`
/// follows it.
pub proof fn lemma_key_split(key: Seq<char>, tail: Seq<u8>)
    requires
        utf8_of(key).len() <= u64::MAX,
    ensures
        has_nested(framed_key(key) + tail),
        parse_key(framed_key(key) + tail) == Ok::<Seq<char>, DecodeError>(key),
        after_nested(framed_key(key) + tail) == tail,
{
    let bytes = utf8_of(key);
    let q = framed_key(key) + tail;
    lemma_u64_round_trip(bytes.len() as u64);
    lemma_text_round_trip(key);
    assert(q.take(8) == u64_be_bytes(bytes.len() as u64));
    assert(q.skip(8) == bytes + tail);
    assert(q.skip(8).take(bytes.len() as int) == bytes);
    assert(q.skip(8).skip(bytes.len() as int) == tail);
}

/// The payload of an array holds the data line of each element.
pub proof fn lemma_items_len(items: Seq<DocTree>, i: int)
    requires
        0 <= i < items.len(),
    ensures
        encode(items[i]).len() <= encode_items(items).len(),
    decreases items.len(),
{
    if i > 0 {
        lemma_items_len(items.drop_first(), i - 1);
    }
}

/// The payload of an object holds each key and the data line of each value.
pub proof fn lemma_fields_len(entries: Seq<(Seq<char>, DocTree)>, i: int)
    requires
        0 <= i < entries.len(),
    ensures
        encode(entries[i].1).len() <= encode_fields(entries).len(),
        utf8_of(entries[i].0).len() <= encode_fields(entries).len(),
    decreases entries.len(),
{
    if i > 0 {
        lemma_fields_len(entries.drop_first(), i - 1);
    }
}

} // verus!
