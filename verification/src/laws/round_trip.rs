//! Decoding undoes encoding.

use crate::bytes::{lemma_i64_round_trip, lemma_u64_round_trip};
use crate::error::DecodeError;
use crate::laws::entries::{
    lemma_field_bytes, lemma_fields_entry, lemma_item_bytes, lemma_items_entry, lemma_reads_line,
    reads, reads_fields, reads_items,
};
use crate::laws::framing::{lemma_fields_len, lemma_items_len, lemma_line_split};
use crate::tree::{distinct_keys, lemma_position, put, DocTree};
use crate::wire::{
    after_line, continue_byte, encode, encode_fields, encode_items, framed_key,
    lemma_text_round_trip, line_consumed, parse, parse_scalar, payload_of, tag_of, utf8_of,
};
use vstd::prelude::*;

verus! {

/// **Round trip.** Decoding the data line of a tree gives the tree back,
/// for every tree in which no object holds a key twice and no object or
/// array is empty, and whose data line is short enough for its length field.
pub proof fn lemma_round_trip(t: DocTree)
    requires
        t.wf(),
        t.inhabited(),
        encode(t).len() <= u64::MAX,
    ensures
        parse(encode(t)) == Ok::<DocTree, DecodeError>(t),
{
    lemma_round_trip_before(t, Seq::empty());
    assert(encode(t) + Seq::<u8>::empty() == encode(t));
}

/// **Round trip, whatever follows.** The bytes after a data line do not
/// change what it decodes to.
pub proof fn lemma_round_trip_before(t: DocTree, tail: Seq<u8>)
    requires
        t.wf(),
        t.inhabited(),
        encode(t).len() <= u64::MAX,
    ensures
        parse(encode(t) + tail) == Ok::<DocTree, DecodeError>(t),
{
    lemma_tree_round_trip(t);
    lemma_round_trips_at(t, tail);
    reveal(reads);
}

/// **A data line in a buffer.** Bytes that start with the data line of a
/// tree decode to that tree, and a reader of them gets as far as the line
/// is long.
pub proof fn lemma_line_in_buffer(s: Seq<u8>, t: DocTree)
    requires
        t.wf(),
        t.inhabited(),
        encode(t).len() <= u64::MAX,
        encode(t).len() <= s.len(),
        s.take(encode(t).len() as int) == encode(t),
    ensures
        parse(s) == Ok::<DocTree, DecodeError>(t),
        line_consumed(s) == encode(t).len(),
        after_line(s) == s.skip(encode(t).len() as int),
{
    let tail = s.skip(encode(t).len() as int);
    assert(s == encode(t) + tail);
    lemma_round_trip_before(t, tail);
    lemma_line_split(tag_of(t), payload_of(t), tail);
}

/// Decoding the data line of the tree gives the tree back, whatever follows
/// the line.
#[verifier::opaque]
pub open spec fn round_trips(t: DocTree) -> bool {
    forall|tail: Seq<u8>| #[trigger] reads(encode(t) + tail) == Ok::<DocTree, DecodeError>(t)
}

/// What `round_trips` says of one run of bytes after the data line.
pub proof fn lemma_round_trips_at(t: DocTree, tail: Seq<u8>)
    requires
        round_trips(t),
    ensures
        reads(encode(t) + tail) == Ok::<DocTree, DecodeError>(t),
{
    reveal(round_trips);
}

/// Induction for the round trip, over the tree.
pub proof fn lemma_tree_round_trip(t: DocTree)
    requires
        t.wf(),
        t.inhabited(),
        encode(t).len() <= u64::MAX,
    ensures
        round_trips(t),
    decreases t, 0int,
{
    match t {
        DocTree::Object(entries) => {
            lemma_ready_start(entries);
            lemma_fields_round_trip(entries, Seq::empty());
            lemma_object_round_trips(entries);
        },
        DocTree::Array(items) => {
            lemma_array_sound(items);
            lemma_items_round_trip(items, Seq::empty());
            lemma_array_round_trips(items);
        },
        _ => {
            lemma_scalar_round_trips(t);
        },
    }
}

/// A scalar comes back from its payload.
pub proof fn lemma_scalar_round_trip(t: DocTree)
    requires
        !(t is Object),
        !(t is Array),
    ensures
        parse_scalar(tag_of(t), payload_of(t)) == Ok::<DocTree, DecodeError>(t),
{
    match t {
        DocTree::String(text) => {
            lemma_text_round_trip(text);
        },
        DocTree::Int64(n) => {
            lemma_i64_round_trip(n);
            assert(payload_of(t).take(8) == payload_of(t));
        },
        DocTree::Float64(bits) => {
            lemma_u64_round_trip(bits);
            assert(payload_of(t).take(8) == payload_of(t));
        },
        _ => {},
    }
}

/// A scalar comes back from its data line, whatever follows the line.
pub proof fn lemma_scalar_round_trips(t: DocTree)
    requires
        !(t is Object),
        !(t is Array),
        encode(t).len() <= u64::MAX,
    ensures
        round_trips(t),
{
    assert forall|tail: Seq<u8>| #[trigger]
        reads(encode(t) + tail) == Ok::<DocTree, DecodeError>(t) by {
        lemma_reads_line(tag_of(t), payload_of(t), tail);
        lemma_scalar_round_trip(t);
    }
    reveal(round_trips);
}

/// An array comes back from its data line if its elements come back from
/// its payload.
pub proof fn lemma_array_round_trips(items: Seq<DocTree>)
    requires
        encode_items(items).len() <= u64::MAX,
        items_come_back(items, Seq::empty()),
    ensures
        round_trips(DocTree::Array(items)),
{
    let t = DocTree::Array(items);
    assert forall|tail: Seq<u8>| #[trigger]
        reads(encode(t) + tail) == Ok::<DocTree, DecodeError>(t) by {
        lemma_reads_line(tag_of(t), payload_of(t), tail);
        lemma_items_come_back_at(items, Seq::empty(), tail);
        assert(Seq::<DocTree>::empty() + items == items);
    }
    reveal(round_trips);
}

/// An object comes back from its data line if its entries come back from
/// its payload.
pub proof fn lemma_object_round_trips(entries: Seq<(Seq<char>, DocTree)>)
    requires
        encode_fields(entries).len() <= u64::MAX,
        fields_come_back(entries, Seq::empty()),
    ensures
        round_trips(DocTree::Object(entries)),
{
    let t = DocTree::Object(entries);
    assert forall|tail: Seq<u8>| #[trigger]
        reads(encode(t) + tail) == Ok::<DocTree, DecodeError>(t) by {
        lemma_reads_line(tag_of(t), payload_of(t), tail);
        lemma_fields_come_back_at(entries, Seq::empty(), tail);
        assert(Seq::<(Seq<char>, DocTree)>::empty() + entries == entries);
    }
    reveal(round_trips);
}

/// The elements are well formed, hold no empty container, and none of them
/// is too long for a length field.
pub open spec fn items_sound(items: Seq<DocTree>) -> bool {
    forall|i: int|
        0 <= i < items.len() ==> (#[trigger] items[i]).wf() && items[i].inhabited() && encode(
            items[i],
        ).len() <= u64::MAX
}

/// The elements of a sound array are sound.
pub proof fn lemma_array_sound(items: Seq<DocTree>)
    requires
        DocTree::Array(items).wf(),
        DocTree::Array(items).inhabited(),
        encode(DocTree::Array(items)).len() <= u64::MAX,
    ensures
        items_sound(items),
        encode_items(items).len() <= u64::MAX,
{
    assert forall|i: int| 0 <= i < items.len() implies (#[trigger] items[i]).wf()
        && items[i].inhabited() && encode(items[i]).len() <= u64::MAX by {
        lemma_items_len(items, i);
    }
}

/// Sound elements stay sound without the first.
pub proof fn lemma_items_sound_tail(items: Seq<DocTree>)
    requires
        items.len() > 0,
        items_sound(items),
    ensures
        items_sound(items.drop_first()),
{
    let rest = items.drop_first();
    assert forall|i: int| 0 <= i < rest.len() implies (#[trigger] rest[i]).wf()
        && rest[i].inhabited() && encode(rest[i]).len() <= u64::MAX by {
        assert(rest[i] == items[i + 1]);
    }
}

/// Decoding the payload of the elements gives them back, after those in
/// `seen`, whatever follows the payload.
#[verifier::opaque]
pub open spec fn items_come_back(items: Seq<DocTree>, seen: Seq<DocTree>) -> bool {
    forall|tail: Seq<u8>| #[trigger]
        reads_items(encode_items(items) + tail, seen) == Ok::<Seq<DocTree>, DecodeError>(
            seen + items,
        )
}

/// What `items_come_back` says of one run of bytes after the payload.
pub proof fn lemma_items_come_back_at(items: Seq<DocTree>, seen: Seq<DocTree>, tail: Seq<u8>)
    requires
        items_come_back(items, seen),
    ensures
        reads_items(encode_items(items) + tail, seen) == Ok::<Seq<DocTree>, DecodeError>(
            seen + items,
        ),
{
    reveal(items_come_back);
}

/// Decoding the payload of an array gives its elements back, after those
/// that were read before.
pub proof fn lemma_items_round_trip(items: Seq<DocTree>, seen: Seq<DocTree>)
    requires
        items.len() > 0,
        items_sound(items),
    ensures
        items_come_back(items, seen),
    decreases items, 1int,
{
    lemma_tree_round_trip(items[0]);
    if items.len() > 1 {
        lemma_items_sound_tail(items);
        lemma_items_round_trip(items.drop_first(), seen.push(items[0]));
    }
    lemma_items_come_back(items, seen);
}

/// The elements come back if the first does and the others do after it.
pub proof fn lemma_items_come_back(items: Seq<DocTree>, seen: Seq<DocTree>)
    requires
        items.len() > 0,
        encode(items[0]).len() <= u64::MAX,
        round_trips(items[0]),
        items.len() > 1 ==> items_come_back(items.drop_first(), seen.push(items[0])),
    ensures
        items_come_back(items, seen),
{
    assert forall|tail: Seq<u8>| #[trigger]
        reads_items(encode_items(items) + tail, seen) == Ok::<Seq<DocTree>, DecodeError>(
            seen + items,
        ) by {
        lemma_items_step(items, seen, tail);
    }
    reveal(items_come_back);
}

/// Reading the entries of an array payload whose first element comes back
/// and whose other elements come back after it.
pub proof fn lemma_items_step(items: Seq<DocTree>, seen: Seq<DocTree>, tail: Seq<u8>)
    requires
        items.len() > 0,
        encode(items[0]).len() <= u64::MAX,
        round_trips(items[0]),
        items.len() > 1 ==> items_come_back(items.drop_first(), seen.push(items[0])),
    ensures
        reads_items(encode_items(items) + tail, seen) == Ok::<Seq<DocTree>, DecodeError>(
            seen + items,
        ),
{
    let first = items[0];
    let last = continue_byte(items.len() > 1);
    let rest = encode_items(items.drop_first());
    let after = seq![last] + (rest + tail);
    lemma_item_bytes(encode(first), last, rest, tail);
    lemma_items_entry(tag_of(first), payload_of(first), last, rest + tail, seen);
    lemma_round_trips_at(first, after);
    lemma_push_first(seen, items);
    if items.len() > 1 {
        lemma_items_come_back_at(items.drop_first(), seen.push(first), tail);
    }
}

/// The values of the entries are well formed, hold no empty container, and
/// no key and no value is too long for a length field.
pub open spec fn entries_sound(entries: Seq<(Seq<char>, DocTree)>) -> bool {
    forall|i: int|
        0 <= i < entries.len() ==> (#[trigger] entries[i]).1.wf() && entries[i].1.inhabited()
            && encode(entries[i].1).len() <= u64::MAX && utf8_of(entries[i].0).len()
            <= u64::MAX
}

/// The entries of a sound object are sound.
pub proof fn lemma_object_sound(entries: Seq<(Seq<char>, DocTree)>)
    requires
        DocTree::Object(entries).wf(),
        DocTree::Object(entries).inhabited(),
        encode(DocTree::Object(entries)).len() <= u64::MAX,
    ensures
        entries_sound(entries),
        encode_fields(entries).len() <= u64::MAX,
{
    assert forall|i: int| 0 <= i < entries.len() implies (#[trigger] entries[i]).1.wf()
        && entries[i].1.inhabited() && encode(entries[i].1).len() <= u64::MAX && utf8_of(
        entries[i].0,
    ).len() <= u64::MAX by {
        lemma_fields_len(entries, i);
    }
}

/// Sound entries stay sound without the first.
pub proof fn lemma_entries_sound_tail(entries: Seq<(Seq<char>, DocTree)>)
    requires
        entries.len() > 0,
        entries_sound(entries),
    ensures
        entries_sound(entries.drop_first()),
{
    let rest = entries.drop_first();
    assert forall|i: int| 0 <= i < rest.len() implies (#[trigger] rest[i]).1.wf()
        && rest[i].1.inhabited() && encode(rest[i].1).len() <= u64::MAX && utf8_of(
        rest[i].0,
    ).len() <= u64::MAX by {
        assert(rest[i] == entries[i + 1]);
    }
}

/// No key of `entries` occurs in `seen`.
pub open spec fn keys_apart(seen: Seq<(Seq<char>, DocTree)>, entries: Seq<(Seq<char>, DocTree)>)
    -> bool {
    forall|i: int, j: int|
        0 <= i < seen.len() && 0 <= j < entries.len() ==> (#[trigger] seen[i]).0 != (
        #[trigger] entries[j]).0
}

/// The entries can be read back after those in `seen`: they are sound,
/// none of their keys comes twice, and none was read before.
#[verifier::opaque]
pub open spec fn fields_ready(
    entries: Seq<(Seq<char>, DocTree)>,
    seen: Seq<(Seq<char>, DocTree)>,
) -> bool {
    entries_sound(entries) && distinct_keys(entries) && keys_apart(seen, entries)
}

/// Decoding the payload of the entries gives them back, after those in
/// `seen`, whatever follows the payload.
#[verifier::opaque]
pub open spec fn fields_come_back(
    entries: Seq<(Seq<char>, DocTree)>,
    seen: Seq<(Seq<char>, DocTree)>,
) -> bool {
    forall|tail: Seq<u8>| #[trigger]
        reads_fields(encode_fields(entries) + tail, seen) == Ok::<
            Seq<(Seq<char>, DocTree)>,
            DecodeError,
        >(seen + entries)
}

/// What `fields_come_back` says of one run of bytes after the payload.
pub proof fn lemma_fields_come_back_at(
    entries: Seq<(Seq<char>, DocTree)>,
    seen: Seq<(Seq<char>, DocTree)>,
    tail: Seq<u8>,
)
    requires
        fields_come_back(entries, seen),
    ensures
        reads_fields(encode_fields(entries) + tail, seen) == Ok::<
            Seq<(Seq<char>, DocTree)>,
            DecodeError,
        >(seen + entries),
{
    reveal(fields_come_back);
}

/// Decoding the payload of an object gives its entries back, after those
/// that were read before, where no key comes twice.
pub proof fn lemma_fields_round_trip(
    entries: Seq<(Seq<char>, DocTree)>,
    seen: Seq<(Seq<char>, DocTree)>,
)
    requires
        entries.len() > 0,
        fields_ready(entries, seen),
    ensures
        fields_come_back(entries, seen),
    decreases entries, 1int,
{
    lemma_ready_head(entries, seen);
    assert(decreases_to!(entries => entries[0]));
    assert(decreases_to!(entries[0] => entries[0].1));
    lemma_tree_round_trip(entries[0].1);
    if entries.len() > 1 {
        lemma_ready_tail(entries, seen);
        lemma_fields_round_trip(entries.drop_first(), seen.push(entries[0]));
    }
    lemma_fields_come_back(entries, seen);
}

/// The entries come back if the first value does and the other entries do
/// after it.
pub proof fn lemma_fields_come_back(
    entries: Seq<(Seq<char>, DocTree)>,
    seen: Seq<(Seq<char>, DocTree)>,
)
    requires
        entries.len() > 0,
        fields_ready(entries, seen),
        round_trips(entries[0].1),
        entries.len() > 1 ==> fields_come_back(entries.drop_first(), seen.push(entries[0])),
    ensures
        fields_come_back(entries, seen),
{
    lemma_ready_head(entries, seen);
    assert forall|tail: Seq<u8>| #[trigger]
        reads_fields(encode_fields(entries) + tail, seen) == Ok::<
            Seq<(Seq<char>, DocTree)>,
            DecodeError,
        >(seen + entries) by {
        lemma_fields_step(entries, seen, tail);
    }
    reveal(fields_come_back);
}

/// Reading the entries of an object payload whose first value comes back,
/// whose first key was not read before, and whose other entries come back
/// after it.
pub proof fn lemma_fields_step(
    entries: Seq<(Seq<char>, DocTree)>,
    seen: Seq<(Seq<char>, DocTree)>,
    tail: Seq<u8>,
)
    requires
        entries.len() > 0,
        encode(entries[0].1).len() <= u64::MAX,
        utf8_of(entries[0].0).len() <= u64::MAX,
        round_trips(entries[0].1),
        put(seen, entries[0].0, entries[0].1) == seen.push(entries[0]),
        entries.len() > 1 ==> fields_come_back(entries.drop_first(), seen.push(entries[0])),
    ensures
        reads_fields(encode_fields(entries) + tail, seen) == Ok::<
            Seq<(Seq<char>, DocTree)>,
            DecodeError,
        >(seen + entries),
{
    let key = entries[0].0;
    let value = entries[0].1;
    let last = continue_byte(entries.len() > 1);
    let rest = encode_fields(entries.drop_first());
    let after = seq![last] + (rest + tail);
    lemma_field_bytes(framed_key(key), encode(value), last, rest, tail);
    lemma_fields_entry(key, tag_of(value), payload_of(value), last, rest + tail, seen);
    lemma_round_trips_at(value, after);
    lemma_push_first(seen, entries);
    if entries.len() > 1 {
        lemma_fields_come_back_at(entries.drop_first(), seen.push(entries[0]), tail);
    }
}

/// The entries of a well-formed object without empty containers are ready
/// to be read back.
pub proof fn lemma_ready_start(entries: Seq<(Seq<char>, DocTree)>)
    requires
        DocTree::Object(entries).wf(),
        DocTree::Object(entries).inhabited(),
        encode(DocTree::Object(entries)).len() <= u64::MAX,
    ensures
        fields_ready(entries, Seq::empty()),
        entries.len() > 0,
        encode_fields(entries).len() <= u64::MAX,
{
    reveal(fields_ready);
    lemma_object_sound(entries);
}

/// What readiness says of the first entry.
pub proof fn lemma_ready_head(entries: Seq<(Seq<char>, DocTree)>, seen: Seq<(Seq<char>, DocTree)>)
    requires
        entries.len() > 0,
        fields_ready(entries, seen),
    ensures
        entries[0].1.wf(),
        entries[0].1.inhabited(),
        encode(entries[0].1).len() <= u64::MAX,
        utf8_of(entries[0].0).len() <= u64::MAX,
        put(seen, entries[0].0, entries[0].1) == seen.push(entries[0]),
{
    reveal(fields_ready);
    lemma_put_new(seen, entries[0].0, entries[0].1);
}

/// Ready entries stay ready without the first, once its key has joined
/// those read before.
pub proof fn lemma_ready_tail(entries: Seq<(Seq<char>, DocTree)>, seen: Seq<(Seq<char>, DocTree)>)
    requires
        entries.len() > 0,
        fields_ready(entries, seen),
    ensures
        fields_ready(entries.drop_first(), seen.push(entries[0])),
{
    reveal(fields_ready);
    let rest = entries.drop_first();
    let seen_more = seen.push(entries[0]);
    lemma_entries_sound_tail(entries);
    assert forall|i: int, j: int| 0 <= i < j < rest.len() implies (#[trigger] rest[i]).0 != (
    #[trigger] rest[j]).0 by {
        assert(rest[i] == entries[i + 1]);
        assert(rest[j] == entries[j + 1]);
    }
    assert forall|i: int, j: int| 0 <= i < seen_more.len() && 0 <= j < rest.len() implies (
    #[trigger] seen_more[i]).0 != (#[trigger] rest[j]).0 by {
        assert(rest[j] == entries[j + 1]);
        if i < seen.len() {
            assert(seen_more[i] == seen[i]);
        } else {
            assert(seen_more[i] == entries[0]);
        }
    }
}

/// A key that no entry holds goes to the end.
pub proof fn lemma_put_new(seen: Seq<(Seq<char>, DocTree)>, key: Seq<char>, value: DocTree)
    requires
        forall|i: int| 0 <= i < seen.len() ==> (#[trigger] seen[i]).0 != key,
    ensures
        put(seen, key, value) == seen.push((key, value)),
{
    lemma_position(seen, key);
}

/// Moving the first of a sequence to the end of the one before it leaves
/// the two together as they were.
pub proof fn lemma_push_first<T>(seen: Seq<T>, more: Seq<T>)
    requires
        more.len() > 0,
    ensures
        seen.push(more[0]) + more.drop_first() == seen + more,
        more.len() == 1 ==> seen.push(more[0]) == seen + more,
{
}

} // verus!
