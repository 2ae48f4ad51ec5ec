//! One entry of a payload, as the decoder reads it, and when an entry makes
//! the decoder refuse the payload.
//!
//! The lemmas here speak of `reads`, `reads_items` and `reads_fields`: the
//! decoding functions under names that a proof unfolds only where it asks
//! to.

use crate::error::DecodeError;
use crate::laws::framing::{lemma_key_split, lemma_line_split};
use crate::tree::{put, DocTree};
use crate::wire::{
    after_line, after_nested, data_line, framed_key, has_line, parse, parse_fields, parse_items,
    parse_key, parse_scalar, utf8_of, TAG_OBJECT, TAG_VEC,
};
use vstd::prelude::*;

verus! {

/// The node that the data line at the start of `s` spells.
#[verifier::opaque]
pub open spec fn reads(s: Seq<u8>) -> Result<DocTree, DecodeError> {
    parse(s)
}

/// The elements that the entries at the start of `p` spell, after those
/// already read.
#[verifier::opaque]
pub open spec fn reads_items(p: Seq<u8>, seen: Seq<DocTree>) -> Result<Seq<DocTree>, DecodeError> {
    parse_items(p, seen)
}

/// The entries that the object entries at the start of `p` spell, after
/// those already read.
#[verifier::opaque]
pub open spec fn reads_fields(p: Seq<u8>, seen: Seq<(Seq<char>, DocTree)>) -> Result<
    Seq<(Seq<char>, DocTree)>,
    DecodeError,
> {
    parse_fields(p, seen)
}

/// The object of the entries, where they were read.
pub open spec fn object_of(r: Result<Seq<(Seq<char>, DocTree)>, DecodeError>) -> Result<
    DocTree,
    DecodeError,
> {
    match r {
        Ok(entries) => Ok(DocTree::Object(entries)),
        Err(e) => Err(e),
    }
}

/// The array of the elements, where they were read.
pub open spec fn array_of(r: Result<Seq<DocTree>, DecodeError>) -> Result<DocTree, DecodeError> {
    match r {
        Ok(items) => Ok(DocTree::Array(items)),
        Err(e) => Err(e),
    }
}

/// What the byte after an entry makes of the entries read so far: 1 reads
/// on, 0 ends the run, any other byte is refused.
pub open spec fn after_entry<T>(
    last: u8,
    seen: Seq<T>,
    read_on: Result<Seq<T>, DecodeError>,
) -> Result<Seq<T>, DecodeError> {
    if last == 1 {
        read_on
    } else if last == 0 {
        Ok(seen)
    } else {
        Err(DecodeError::InvalidContinuation)
    }
}

/// A data line, read, whatever follows it: an object or array is read
/// from its payload and what follows, a scalar from its payload alone.
pub proof fn lemma_reads_line(tag: u8, payload: Seq<u8>, tail: Seq<u8>)
    requires
        payload.len() <= u64::MAX,
    ensures
        reads(data_line(tag, payload) + tail) == if tag == TAG_OBJECT {
            object_of(reads_fields(payload + tail, Seq::empty()))
        } else if tag == TAG_VEC {
            array_of(reads_items(payload + tail, Seq::empty()))
        } else {
            parse_scalar(tag, payload)
        },
{
    reveal(reads);
    reveal(reads_items);
    reveal(reads_fields);
    lemma_line_split(tag, payload, tail);
    assert((payload + tail).take(payload.len() as int) == payload);
}

/// One array entry, read: the element that its data line spells joins those
/// read before, and the byte after it says whether reading goes on with
/// what follows.
pub proof fn lemma_items_entry(
    tag: u8,
    payload: Seq<u8>,
    last: u8,
    tail: Seq<u8>,
    seen: Seq<DocTree>,
)
    requires
        payload.len() <= u64::MAX,
    ensures
        reads_items(data_line(tag, payload) + (seq![last] + tail), seen) == match reads(
            data_line(tag, payload) + (seq![last] + tail),
        ) {
            Err(e) => Err::<Seq<DocTree>, DecodeError>(e),
            Ok(item) => after_entry(last, seen.push(item), reads_items(tail, seen.push(item))),
        },
{
    let rest = seq![last] + tail;
    lemma_line_split(tag, payload, rest);
    assert(rest[0] == last && rest.skip(1) == tail);
    lemma_items_parts(data_line(tag, payload) + rest, seen, rest);
}

/// Reading array entries, once the extent of the first data line is known.
pub proof fn lemma_items_parts(p: Seq<u8>, seen: Seq<DocTree>, rest: Seq<u8>)
    requires
        has_line(p),
        after_line(p) == rest,
        rest.len() >= 1,
    ensures
        reads_items(p, seen) == match reads(p) {
            Err(e) => Err::<Seq<DocTree>, DecodeError>(e),
            Ok(item) => after_entry(
                rest[0],
                seen.push(item),
                reads_items(rest.skip(1), seen.push(item)),
            ),
        },
{
    reveal(reads);
    reveal(reads_items);
}

/// One object entry, read: the key takes the value that the data line
/// spells, and the byte after it says whether reading goes on with what
/// follows.
pub proof fn lemma_fields_entry(
    key: Seq<char>,
    tag: u8,
    payload: Seq<u8>,
    last: u8,
    tail: Seq<u8>,
    seen: Seq<(Seq<char>, DocTree)>,
)
    requires
        utf8_of(key).len() <= u64::MAX,
        payload.len() <= u64::MAX,
    ensures
        reads_fields(framed_key(key) + (data_line(tag, payload) + (seq![last] + tail)), seen)
            == match reads(data_line(tag, payload) + (seq![last] + tail)) {
            Err(e) => Err::<Seq<(Seq<char>, DocTree)>, DecodeError>(e),
            Ok(value) => after_entry(
                last,
                put(seen, key, value),
                reads_fields(tail, put(seen, key, value)),
            ),
        },
{
    let rest = seq![last] + tail;
    let q = data_line(tag, payload) + rest;
    lemma_key_split(key, q);
    lemma_line_split(tag, payload, rest);
    assert(rest[0] == last && rest.skip(1) == tail);
    lemma_fields_parts(framed_key(key) + q, seen, key, q, rest);
}

/// Reading object entries, once the key and the extent of the first data
/// line are known.
pub proof fn lemma_fields_parts(
    p: Seq<u8>,
    seen: Seq<(Seq<char>, DocTree)>,
    key: Seq<char>,
    q: Seq<u8>,
    rest: Seq<u8>,
)
    requires
        parse_key(p) == Ok::<Seq<char>, DecodeError>(key),
        after_nested(p) == q,
        has_line(q),
        after_line(q) == rest,
        rest.len() >= 1,
    ensures
        reads_fields(p, seen) == match reads(q) {
            Err(e) => Err::<Seq<(Seq<char>, DocTree)>, DecodeError>(e),
            Ok(value) => after_entry(
                rest[0],
                put(seen, key, value),
                reads_fields(rest.skip(1), put(seen, key, value)),
            ),
        },
{
    reveal(reads);
    reveal(reads_fields);
}

/// The bytes are refused as a data line, whatever follows them.
#[verifier::opaque]
pub open spec fn refused(s: Seq<u8>) -> bool {
    forall|tail: Seq<u8>| (#[trigger] reads(s + tail)) is Err
}

/// The bytes are refused as an array payload, whatever follows them and
/// whatever was read before them.
#[verifier::opaque]
pub open spec fn items_refused(p: Seq<u8>) -> bool {
    forall|tail: Seq<u8>, seen: Seq<DocTree>| (#[trigger] reads_items(p + tail, seen)) is Err
}

/// The bytes are refused as an object payload, whatever follows them and
/// whatever was read before them.
#[verifier::opaque]
pub open spec fn fields_refused(p: Seq<u8>) -> bool {
    forall|tail: Seq<u8>, seen: Seq<(Seq<char>, DocTree)>|
        (#[trigger] reads_fields(p + tail, seen)) is Err
}

/// The bytes are accepted as a data line, whatever follows them.
#[verifier::opaque]
pub open spec fn accepted(s: Seq<u8>) -> bool {
    forall|tail: Seq<u8>| (#[trigger] reads(s + tail)) is Ok
}

/// The bytes are refused as a data line for a byte after an entry that is
/// neither 0 nor 1, whatever follows them.
#[verifier::opaque]
pub open spec fn flagged(s: Seq<u8>) -> bool {
    forall|tail: Seq<u8>| #[trigger]
        reads(s + tail) == Err::<DocTree, DecodeError>(DecodeError::InvalidContinuation)
}

/// The bytes are refused as an array payload for a byte after an entry that
/// is neither 0 nor 1, whatever follows them and whatever was read before.
#[verifier::opaque]
pub open spec fn items_flagged(p: Seq<u8>) -> bool {
    forall|tail: Seq<u8>, seen: Seq<DocTree>| #[trigger]
        reads_items(p + tail, seen) == Err::<Seq<DocTree>, DecodeError>(
            DecodeError::InvalidContinuation,
        )
}

/// The bytes are refused as an object payload for a byte after an entry
/// that is neither 0 nor 1, whatever follows them and whatever was read
/// before.
#[verifier::opaque]
pub open spec fn fields_flagged(p: Seq<u8>) -> bool {
    forall|tail: Seq<u8>, seen: Seq<(Seq<char>, DocTree)>| #[trigger]
        reads_fields(p + tail, seen) == Err::<Seq<(Seq<char>, DocTree)>, DecodeError>(
            DecodeError::InvalidContinuation,
        )
}

/// What `refused` says of one run of bytes after the data line.
pub proof fn lemma_refused_at(s: Seq<u8>, tail: Seq<u8>)
    requires
        refused(s),
    ensures
        reads(s + tail) is Err,
{
    reveal(refused);
}

/// What `items_refused` says of one run of bytes after the payload and one
/// run of elements before it.
pub proof fn lemma_items_refused_at(p: Seq<u8>, tail: Seq<u8>, seen: Seq<DocTree>)
    requires
        items_refused(p),
    ensures
        reads_items(p + tail, seen) is Err,
{
    reveal(items_refused);
}

/// What `fields_refused` says of one run of bytes after the payload and one
/// run of entries before it.
pub proof fn lemma_fields_refused_at(p: Seq<u8>, tail: Seq<u8>, seen: Seq<(Seq<char>, DocTree)>)
    requires
        fields_refused(p),
    ensures
        reads_fields(p + tail, seen) is Err,
{
    reveal(fields_refused);
}

/// What `accepted` says of one run of bytes after the data line.
pub proof fn lemma_accepted_at(s: Seq<u8>, tail: Seq<u8>)
    requires
        accepted(s),
    ensures
        reads(s + tail) is Ok,
{
    reveal(accepted);
}

/// What `flagged` says of one run of bytes after the data line.
pub proof fn lemma_flagged_at(s: Seq<u8>, tail: Seq<u8>)
    requires
        flagged(s),
    ensures
        reads(s + tail) == Err::<DocTree, DecodeError>(DecodeError::InvalidContinuation),
{
    reveal(flagged);
}

/// What `items_flagged` says of one run of bytes after the payload and one
/// run of elements before it.
pub proof fn lemma_items_flagged_at(p: Seq<u8>, tail: Seq<u8>, seen: Seq<DocTree>)
    requires
        items_flagged(p),
    ensures
        reads_items(p + tail, seen) == Err::<Seq<DocTree>, DecodeError>(
            DecodeError::InvalidContinuation,
        ),
{
    reveal(items_flagged);
}

/// What `fields_flagged` says of one run of bytes after the payload and one
/// run of entries before it.
pub proof fn lemma_fields_flagged_at(p: Seq<u8>, tail: Seq<u8>, seen: Seq<(Seq<char>, DocTree)>)
    requires
        fields_flagged(p),
    ensures
        reads_fields(p + tail, seen) == Err::<Seq<(Seq<char>, DocTree)>, DecodeError>(
            DecodeError::InvalidContinuation,
        ),
{
    reveal(fields_flagged);
}

/// An array entry and what follows it, with the bytes after the data line
/// gathered on the right.
pub proof fn lemma_item_bytes(line: Seq<u8>, last: u8, rest: Seq<u8>, tail: Seq<u8>)
    ensures
        line + seq![last] + rest + tail == line + (seq![last] + (rest + tail)),
{
    assert(line + seq![last] + rest + tail =~= line + (seq![last] + (rest + tail)));
}

/// An object entry and what follows it, with the bytes after the key and
/// after the data line gathered on the right.
pub proof fn lemma_field_bytes(
    key_part: Seq<u8>,
    line: Seq<u8>,
    last: u8,
    rest: Seq<u8>,
    tail: Seq<u8>,
)
    ensures
        key_part + (line + seq![last]) + rest + tail == key_part + (line + (seq![last] + (rest
            + tail))),
{
    assert(key_part + (line + seq![last]) + rest + tail =~= key_part + (line + (seq![last] + (
    rest + tail))));
}

/// An array payload is refused if the data line of its first entry is
/// refused, or the byte after that line is neither 0 nor 1, or the byte is 1
/// and what follows is refused.
pub proof fn lemma_items_refused(tag: u8, payload: Seq<u8>, last: u8, rest: Seq<u8>)
    requires
        payload.len() <= u64::MAX,
        refused(data_line(tag, payload)) || (last != 0 && last != 1) || (last == 1
            && items_refused(rest)),
    ensures
        items_refused(data_line(tag, payload) + seq![last] + rest),
{
    let line = data_line(tag, payload);
    assert forall|tail: Seq<u8>, seen: Seq<DocTree>|
        (#[trigger] reads_items(line + seq![last] + rest + tail, seen)) is Err by {
        let after = seq![last] + (rest + tail);
        lemma_item_bytes(line, last, rest, tail);
        lemma_items_entry(tag, payload, last, rest + tail, seen);
        if refused(line) {
            lemma_refused_at(line, after);
        } else if last == 1 && reads(line + after) is Ok {
            lemma_items_refused_at(rest, tail, seen.push(reads(line + after)->Ok_0));
        }
    }
    reveal(items_refused);
}

/// An object payload is refused if the data line of its first entry is
/// refused, or the byte after that line is neither 0 nor 1, or the byte is 1
/// and what follows is refused.
pub proof fn lemma_fields_refused(
    key: Seq<char>,
    tag: u8,
    payload: Seq<u8>,
    last: u8,
    rest: Seq<u8>,
)
    requires
        utf8_of(key).len() <= u64::MAX,
        payload.len() <= u64::MAX,
        refused(data_line(tag, payload)) || (last != 0 && last != 1) || (last == 1
            && fields_refused(rest)),
    ensures
        fields_refused(framed_key(key) + (data_line(tag, payload) + seq![last]) + rest),
{
    let line = data_line(tag, payload);
    let p = framed_key(key) + (line + seq![last]) + rest;
    assert forall|tail: Seq<u8>, seen: Seq<(Seq<char>, DocTree)>|
        (#[trigger] reads_fields(p + tail, seen)) is Err by {
        let after = seq![last] + (rest + tail);
        lemma_field_bytes(framed_key(key), line, last, rest, tail);
        lemma_fields_entry(key, tag, payload, last, rest + tail, seen);
        if refused(line) {
            lemma_refused_at(line, after);
        } else if last == 1 && reads(line + after) is Ok {
            lemma_fields_refused_at(rest, tail, put(seen, key, reads(line + after)->Ok_0));
        }
    }
    reveal(fields_refused);
}

/// The data line of a container is refused if its payload is.
pub proof fn lemma_line_refused(tag: u8, payload: Seq<u8>)
    requires
        payload.len() <= u64::MAX,
        (tag == TAG_OBJECT && fields_refused(payload)) || (tag == TAG_VEC && items_refused(
            payload,
        )),
    ensures
        refused(data_line(tag, payload)),
{
    assert forall|tail: Seq<u8>| (#[trigger] reads(data_line(tag, payload) + tail)) is Err by {
        lemma_reads_line(tag, payload, tail);
        if tag == TAG_OBJECT {
            lemma_fields_refused_at(payload, tail, Seq::empty());
        } else {
            lemma_items_refused_at(payload, tail, Seq::empty());
        }
    }
    reveal(refused);
}

/// An array payload is refused for its continuation bytes if the data line
/// of its first entry is, or if that line is accepted and the byte after it
/// is neither 0 nor 1, or is 1 and what follows is refused so.
pub proof fn lemma_items_flagged(tag: u8, payload: Seq<u8>, last: u8, rest: Seq<u8>)
    requires
        payload.len() <= u64::MAX,
        flagged(data_line(tag, payload)) || (accepted(data_line(tag, payload)) && ((last != 0
            && last != 1) || (last == 1 && items_flagged(rest)))),
    ensures
        items_flagged(data_line(tag, payload) + seq![last] + rest),
{
    let line = data_line(tag, payload);
    assert forall|tail: Seq<u8>, seen: Seq<DocTree>| #[trigger]
        reads_items(line + seq![last] + rest + tail, seen) == Err::<Seq<DocTree>, DecodeError>(
            DecodeError::InvalidContinuation,
        ) by {
        let after = seq![last] + (rest + tail);
        lemma_item_bytes(line, last, rest, tail);
        lemma_items_entry(tag, payload, last, rest + tail, seen);
        if flagged(line) {
            lemma_flagged_at(line, after);
        } else {
            lemma_accepted_at(line, after);
            if last == 1 {
                lemma_items_flagged_at(rest, tail, seen.push(reads(line + after)->Ok_0));
            }
        }
    }
    reveal(items_flagged);
}

/// An object payload is refused for its continuation bytes if the data line
/// of its first entry is, or if that line is accepted and the byte after it
/// is neither 0 nor 1, or is 1 and what follows is refused so.
pub proof fn lemma_fields_flagged(
    key: Seq<char>,
    tag: u8,
    payload: Seq<u8>,
    last: u8,
    rest: Seq<u8>,
)
    requires
        utf8_of(key).len() <= u64::MAX,
        payload.len() <= u64::MAX,
        flagged(data_line(tag, payload)) || (accepted(data_line(tag, payload)) && ((last != 0
            && last != 1) || (last == 1 && fields_flagged(rest)))),
    ensures
        fields_flagged(framed_key(key) + (data_line(tag, payload) + seq![last]) + rest),
{
    let line = data_line(tag, payload);
    let p = framed_key(key) + (line + seq![last]) + rest;
    assert forall|tail: Seq<u8>, seen: Seq<(Seq<char>, DocTree)>| #[trigger]
        reads_fields(p + tail, seen) == Err::<Seq<(Seq<char>, DocTree)>, DecodeError>(
            DecodeError::InvalidContinuation,
        ) by {
        let after = seq![last] + (rest + tail);
        lemma_field_bytes(framed_key(key), line, last, rest, tail);
        lemma_fields_entry(key, tag, payload, last, rest + tail, seen);
        if flagged(line) {
            lemma_flagged_at(line, after);
        } else {
            lemma_accepted_at(line, after);
            if last == 1 {
                lemma_fields_flagged_at(rest, tail, put(seen, key, reads(line + after)->Ok_0));
            }
        }
    }
    reveal(fields_flagged);
}

/// The data line of a container is refused for its continuation bytes if
/// its payload is.
pub proof fn lemma_line_flagged(tag: u8, payload: Seq<u8>)
    requires
        payload.len() <= u64::MAX,
        (tag == TAG_OBJECT && fields_flagged(payload)) || (tag == TAG_VEC && items_flagged(
            payload,
        )),
    ensures
        flagged(data_line(tag, payload)),
{
    assert forall|tail: Seq<u8>| #[trigger]
        reads(data_line(tag, payload) + tail) == Err::<DocTree, DecodeError>(
            DecodeError::InvalidContinuation,
        ) by {
        lemma_reads_line(tag, payload, tail);
        if tag == TAG_OBJECT {
            lemma_fields_flagged_at(payload, tail, Seq::empty());
        } else {
            lemma_items_flagged_at(payload, tail, Seq::empty());
        }
    }
    reveal(flagged);
}

} // verus!
