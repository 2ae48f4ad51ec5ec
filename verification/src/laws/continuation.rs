//! Continuation bytes are held to 0 and 1.

use crate::bytes::lemma_u64_round_trip;
use crate::error::DecodeError;
use crate::laws::entries::{
    accepted, fields_flagged, fields_refused, flagged, items_flagged, items_refused,
    lemma_fields_flagged, lemma_fields_refused, lemma_flagged_at, lemma_items_flagged,
    lemma_items_refused, lemma_line_flagged, lemma_line_refused, lemma_refused_at, reads, refused,
};
use crate::laws::framing::{lemma_fields_len, lemma_framing, lemma_items_len};
use crate::laws::round_trip::{
    entries_sound, items_sound, lemma_array_sound, lemma_entries_sound_tail, lemma_items_sound_tail,
    lemma_object_sound, lemma_tree_round_trip, round_trips,
};
use crate::tree::DocTree;
use crate::wire::{
    continue_byte, data_line, encode, encode_fields, encode_items, framed_key, parse, payload_of,
    tag_of,
};
use vstd::prelude::*;

verus! {

/// Whether index `i` of the data line of `t` holds a continuation byte:
/// the byte after an entry of `t` or of a container inside `t`.
pub open spec fn continuation_at(t: DocTree, i: int) -> bool
    decreases t, 0int,
{
    match t {
        DocTree::Object(entries) => fields_continuation_at(entries, i - 9),
        DocTree::Array(items) => items_continuation_at(items, i - 9),
        _ => false,
    }
}

/// Whether index `j` of the payload of an array with these elements holds a
/// continuation byte.
pub open spec fn items_continuation_at(items: Seq<DocTree>, j: int) -> bool
    decreases items, 1int,
{
    if items.len() == 0 || j < 0 {
        false
    } else {
        let end: int = encode(items[0]).len() as int;
        if j < end {
            continuation_at(items[0], j)
        } else if j == end {
            true
        } else {
            items_continuation_at(items.drop_first(), j - end - 1)
        }
    }
}

/// Whether index `j` of the payload of an object with these entries holds a
/// continuation byte.
pub open spec fn fields_continuation_at(entries: Seq<(Seq<char>, DocTree)>, j: int) -> bool
    decreases entries, 1int,
{
    if entries.len() == 0 {
        false
    } else {
        let start: int = framed_key(entries[0].0).len() as int;
        let end: int = start + encode(entries[0].1).len();
        if j < start {
            false
        } else if j < end {
            continuation_at(entries[0].1, j - start)
        } else if j == end {
            true
        } else {
            fields_continuation_at(entries.drop_first(), j - end - 1)
        }
    }
}

/// **Strict continuation bytes.** A data line in which a continuation byte
/// is changed to a value other than 0 and 1 is refused.
pub proof fn lemma_strict_continuation(t: DocTree, i: int, b: u8)
    requires
        encode(t).len() <= u64::MAX,
        continuation_at(t, i),
        b != 0 && b != 1,
    ensures
        0 <= i < encode(t).len(),
        parse(encode(t).update(i, b)) is Err,
{
    lemma_continuation_bounds(t, i);
    lemma_tree_strict(t, i, b);
    lemma_refused_at(encode(t).update(i, b), Seq::empty());
    assert(encode(t).update(i, b) + Seq::<u8>::empty() == encode(t).update(i, b));
    reveal(reads);
}

/// **Strict continuation bytes, by name.** In the data line of a tree that
/// decodes, a continuation byte that is changed to a value other than 0 and
/// 1 is what the decoder names as its reason to refuse.
pub proof fn lemma_strict_continuation_named(t: DocTree, i: int, b: u8)
    requires
        t.wf(),
        t.inhabited(),
        encode(t).len() <= u64::MAX,
        continuation_at(t, i),
        b != 0 && b != 1,
    ensures
        parse(encode(t).update(i, b)) == Err::<DocTree, DecodeError>(
            DecodeError::InvalidContinuation,
        ),
{
    lemma_tree_flagged(t, i, b);
    lemma_flagged_at(encode(t).update(i, b), Seq::empty());
    assert(encode(t).update(i, b) + Seq::<u8>::empty() == encode(t).update(i, b));
    reveal(reads);
}

/// A continuation byte lies inside the data line, after its first nine
/// bytes.
pub proof fn lemma_continuation_bounds(t: DocTree, i: int)
    requires
        continuation_at(t, i),
        encode(t).len() <= u64::MAX,
    ensures
        9 <= i < encode(t).len(),
    decreases t, 0int,
{
    lemma_framing(t);
    match t {
        DocTree::Object(entries) => {
            lemma_fields_continuation_bounds(entries, i - 9);
        },
        DocTree::Array(items) => {
            lemma_items_continuation_bounds(items, i - 9);
        },
        _ => {},
    }
}

/// A continuation byte of an array payload lies inside the payload.
pub proof fn lemma_items_continuation_bounds(items: Seq<DocTree>, j: int)
    requires
        items_continuation_at(items, j),
        encode_items(items).len() <= u64::MAX,
    ensures
        0 <= j < encode_items(items).len(),
        items.len() > 0,
        j < encode(items[0]).len() ==> 9 <= j && continuation_at(items[0], j),
        j > encode(items[0]).len() ==> items.len() > 1,
    decreases items, 1int,
{
    let end: int = encode(items[0]).len() as int;
    if j < end {
        lemma_continuation_bounds(items[0], j);
    } else if j > end {
        lemma_items_continuation_bounds(items.drop_first(), j - end - 1);
    }
}

/// A continuation byte of an object payload lies inside the payload.
pub proof fn lemma_fields_continuation_bounds(entries: Seq<(Seq<char>, DocTree)>, j: int)
    requires
        fields_continuation_at(entries, j),
        encode_fields(entries).len() <= u64::MAX,
    ensures
        0 <= j < encode_fields(entries).len(),
        entries.len() > 0,
        framed_key(entries[0].0).len() <= j,
        j < framed_key(entries[0].0).len() + encode(entries[0].1).len() ==> 9 <= j - framed_key(
            entries[0].0,
        ).len() && continuation_at(entries[0].1, j - framed_key(entries[0].0).len()),
        j > framed_key(entries[0].0).len() + encode(entries[0].1).len() ==> entries.len() > 1,
    decreases entries, 1int,
{
    let start: int = framed_key(entries[0].0).len() as int;
    let end: int = start + encode(entries[0].1).len();
    assert(decreases_to!(entries => entries[0]));
    assert(decreases_to!(entries[0] => entries[0].1));
    if start <= j < end {
        lemma_fields_len(entries, 0);
        lemma_continuation_bounds(entries[0].1, j - start);
    } else if j > end {
        lemma_fields_continuation_bounds(entries.drop_first(), j - end - 1);
    }
}

/// The byte at a continuation index is a continuation byte: 0 or 1.
pub proof fn lemma_continuation_is_flag(t: DocTree, i: int)
    requires
        continuation_at(t, i),
        encode(t).len() <= u64::MAX,
    ensures
        encode(t)[i] == 0 || encode(t)[i] == 1,
    decreases t, 0int,
{
    lemma_continuation_bounds(t, i);
    lemma_framing(t);
    lemma_u64_round_trip(payload_of(t).len() as u64);
    assert(encode(t)[i] == payload_of(t)[i - 9]);
    match t {
        DocTree::Object(entries) => {
            lemma_fields_continuation_is_flag(entries, i - 9);
        },
        DocTree::Array(items) => {
            lemma_items_continuation_is_flag(items, i - 9);
        },
        _ => {},
    }
}

/// The byte at a continuation index of an array payload is 0 or 1.
pub proof fn lemma_items_continuation_is_flag(items: Seq<DocTree>, j: int)
    requires
        items_continuation_at(items, j),
        encode_items(items).len() <= u64::MAX,
    ensures
        encode_items(items)[j] == 0 || encode_items(items)[j] == 1,
    decreases items, 1int,
{
    let line = encode(items[0]);
    let tail = encode_items(items.drop_first());
    let end: int = line.len() as int;
    lemma_items_continuation_bounds(items, j);
    if j < end {
        lemma_items_len(items, 0);
        lemma_continuation_is_flag(items[0], j);
        assert(encode_items(items)[j] == line[j]);
    } else if j == end {
        assert(encode_items(items)[j] == continue_byte(items.len() > 1));
    } else {
        lemma_items_continuation_is_flag(items.drop_first(), j - end - 1);
        assert(encode_items(items)[j] == tail[j - end - 1]);
    }
}

/// The byte at a continuation index of an object payload is 0 or 1.
pub proof fn lemma_fields_continuation_is_flag(entries: Seq<(Seq<char>, DocTree)>, j: int)
    requires
        fields_continuation_at(entries, j),
        encode_fields(entries).len() <= u64::MAX,
    ensures
        encode_fields(entries)[j] == 0 || encode_fields(entries)[j] == 1,
    decreases entries, 1int,
{
    let line = encode(entries[0].1);
    let tail = encode_fields(entries.drop_first());
    let start: int = framed_key(entries[0].0).len() as int;
    let end: int = start + line.len();
    lemma_fields_continuation_bounds(entries, j);
    assert(decreases_to!(entries => entries[0]));
    assert(decreases_to!(entries[0] => entries[0].1));
    if j < end {
        lemma_fields_len(entries, 0);
        lemma_continuation_is_flag(entries[0].1, j - start);
        assert(encode_fields(entries)[j] == line[j - start]);
    } else if j == end {
        assert(encode_fields(entries)[j] == continue_byte(entries.len() > 1));
    } else {
        lemma_fields_continuation_is_flag(entries.drop_first(), j - end - 1);
        assert(encode_fields(entries)[j] == tail[j - end - 1]);
    }
}

/// A data line with one byte of its payload changed is the data line of the
/// changed payload.
pub proof fn lemma_line_update(tag: u8, payload: Seq<u8>, j: int, b: u8)
    requires
        0 <= j < payload.len(),
    ensures
        data_line(tag, payload).update(9 + j, b) == data_line(tag, payload.update(j, b)),
{
    lemma_u64_round_trip(payload.len() as u64);
    assert(data_line(tag, payload).update(9 + j, b) =~= data_line(tag, payload.update(j, b)));
}

/// The data line of a tree with one byte of its payload changed.
pub proof fn lemma_encode_update(t: DocTree, i: int, b: u8)
    requires
        9 <= i < encode(t).len(),
        encode(t).len() <= u64::MAX,
    ensures
        encode(t).update(i, b) == data_line(tag_of(t), payload_of(t).update(i - 9, b)),
        payload_of(t).update(i - 9, b).len() <= u64::MAX,
{
    lemma_framing(t);
    lemma_line_update(tag_of(t), payload_of(t), i - 9, b);
}

/// An entry and what follows it, with one byte changed, by where the byte
/// lies: in the data line, after the line, or in what follows. `before` is
/// what comes before the data line in the entry.
pub proof fn lemma_entry_update(
    before: Seq<u8>,
    line: Seq<u8>,
    last: u8,
    rest: Seq<u8>,
    j: int,
    b: u8,
)
    requires
        before.len() <= j < before.len() + line.len() + 1 + rest.len(),
    ensures
        (before + (line + seq![last]) + rest).update(j, b) == if j < before.len() + line.len() {
            before + (line.update(j - before.len(), b) + seq![last]) + rest
        } else if j == before.len() + line.len() {
            before + (line + seq![b]) + rest
        } else {
            before + (line + seq![last]) + rest.update(j - before.len() - line.len() - 1, b)
        },
{
    let changed = (before + (line + seq![last]) + rest).update(j, b);
    if j < before.len() + line.len() {
        assert(changed =~= before + (line.update(j - before.len(), b) + seq![last]) + rest);
    } else if j == before.len() + line.len() {
        assert(changed =~= before + (line + seq![b]) + rest);
    } else {
        assert(changed =~= before + (line + seq![last]) + rest.update(
            j - before.len() - line.len() - 1,
            b,
        ));
    }
}

/// An array entry and what follows it, with one byte changed.
pub proof fn lemma_item_update(line: Seq<u8>, last: u8, rest: Seq<u8>, j: int, b: u8)
    requires
        0 <= j < line.len() + 1 + rest.len(),
    ensures
        (line + seq![last] + rest).update(j, b) == if j < line.len() {
            line.update(j, b) + seq![last] + rest
        } else if j == line.len() {
            line + seq![b] + rest
        } else {
            line + seq![last] + rest.update(j - line.len() - 1, b)
        },
{
    let changed = (line + seq![last] + rest).update(j, b);
    if j < line.len() {
        assert(changed =~= line.update(j, b) + seq![last] + rest);
    } else if j == line.len() {
        assert(changed =~= line + seq![b] + rest);
    } else {
        assert(changed =~= line + seq![last] + rest.update(j - line.len() - 1, b));
    }
}

/// Induction for the strict continuation bytes, over the tree.
pub proof fn lemma_tree_strict(t: DocTree, i: int, b: u8)
    requires
        encode(t).len() <= u64::MAX,
        continuation_at(t, i),
        b != 0 && b != 1,
    ensures
        refused(encode(t).update(i, b)),
    decreases t, 0int,
{
    lemma_continuation_bounds(t, i);
    lemma_encode_update(t, i, b);
    lemma_framing(t);
    match t {
        DocTree::Object(entries) => {
            lemma_fields_strict(entries, i - 9, b);
        },
        DocTree::Array(items) => {
            lemma_items_strict(items, i - 9, b);
        },
        _ => {},
    }
    lemma_line_refused(tag_of(t), payload_of(t).update(i - 9, b));
}

/// An array payload in which a continuation byte is changed to a value
/// other than 0 and 1 is refused, whatever was read before.
pub proof fn lemma_items_strict(items: Seq<DocTree>, j: int, b: u8)
    requires
        encode_items(items).len() <= u64::MAX,
        items_continuation_at(items, j),
        b != 0 && b != 1,
    ensures
        items_refused(encode_items(items).update(j, b)),
    decreases items, 1int,
{
    let first = items[0];
    let line = encode(first);
    let last = continue_byte(items.len() > 1);
    let rest = encode_items(items.drop_first());
    let end: int = line.len() as int;
    lemma_items_continuation_bounds(items, j);
    lemma_items_len(items, 0);
    lemma_item_update(line, last, rest, j, b);
    if j < end {
        lemma_tree_strict(first, j, b);
        lemma_encode_update(first, j, b);
        lemma_items_refused(tag_of(first), payload_of(first).update(j - 9, b), last, rest);
    } else if j == end {
        lemma_items_refused(tag_of(first), payload_of(first), b, rest);
    } else {
        lemma_items_strict(items.drop_first(), j - end - 1, b);
        lemma_items_refused(tag_of(first), payload_of(first), last, rest.update(j - end - 1, b));
    }
}

/// An object payload in which a continuation byte is changed to a value
/// other than 0 and 1 is refused, whatever was read before.
pub proof fn lemma_fields_strict(entries: Seq<(Seq<char>, DocTree)>, j: int, b: u8)
    requires
        encode_fields(entries).len() <= u64::MAX,
        fields_continuation_at(entries, j),
        b != 0 && b != 1,
    ensures
        fields_refused(encode_fields(entries).update(j, b)),
    decreases entries, 1int,
{
    let key = entries[0].0;
    let value = entries[0].1;
    let line = encode(value);
    let last = continue_byte(entries.len() > 1);
    let rest = encode_fields(entries.drop_first());
    let start: int = framed_key(key).len() as int;
    let end: int = start + line.len();
    lemma_fields_continuation_bounds(entries, j);
    lemma_fields_len(entries, 0);
    lemma_entry_update(framed_key(key), line, last, rest, j, b);
    assert(decreases_to!(entries => entries[0]));
    assert(decreases_to!(entries[0] => entries[0].1));
    if j < end {
        lemma_tree_strict(value, j - start, b);
        lemma_encode_update(value, j - start, b);
        lemma_fields_refused(
            key,
            tag_of(value),
            payload_of(value).update(j - start - 9, b),
            last,
            rest,
        );
    } else if j == end {
        lemma_fields_refused(key, tag_of(value), payload_of(value), b, rest);
    } else {
        lemma_fields_strict(entries.drop_first(), j - end - 1, b);
        lemma_fields_refused(
            key,
            tag_of(value),
            payload_of(value),
            last,
            rest.update(j - end - 1, b),
        );
    }
}

/// A data line that comes back whatever follows it is accepted whatever
/// follows it.
pub proof fn lemma_accepted(t: DocTree)
    requires
        round_trips(t),
    ensures
        accepted(encode(t)),
{
    reveal(round_trips);
    reveal(accepted);
}

/// Induction for the named refusal, over the tree.
pub proof fn lemma_tree_flagged(t: DocTree, i: int, b: u8)
    requires
        t.wf(),
        t.inhabited(),
        encode(t).len() <= u64::MAX,
        continuation_at(t, i),
        b != 0 && b != 1,
    ensures
        flagged(encode(t).update(i, b)),
    decreases t, 0int,
{
    lemma_continuation_bounds(t, i);
    lemma_encode_update(t, i, b);
    lemma_framing(t);
    match t {
        DocTree::Object(entries) => {
            lemma_object_sound(entries);
            lemma_fields_flagged_in(entries, i - 9, b);
        },
        DocTree::Array(items) => {
            lemma_array_sound(items);
            lemma_items_flagged_in(items, i - 9, b);
        },
        _ => {},
    }
    lemma_line_flagged(tag_of(t), payload_of(t).update(i - 9, b));
}

/// The named refusal for the payload of an array of sound elements.
pub proof fn lemma_items_flagged_in(items: Seq<DocTree>, j: int, b: u8)
    requires
        items_sound(items),
        encode_items(items).len() <= u64::MAX,
        items_continuation_at(items, j),
        b != 0 && b != 1,
    ensures
        items_flagged(encode_items(items).update(j, b)),
    decreases items, 1int,
{
    let first = items[0];
    let line = encode(first);
    let last = continue_byte(items.len() > 1);
    let rest = encode_items(items.drop_first());
    let end: int = line.len() as int;
    lemma_items_continuation_bounds(items, j);
    lemma_item_update(line, last, rest, j, b);
    if j < end {
        lemma_tree_flagged(first, j, b);
        lemma_encode_update(first, j, b);
        lemma_items_flagged(tag_of(first), payload_of(first).update(j - 9, b), last, rest);
    } else {
        lemma_tree_round_trip(first);
        lemma_accepted(first);
        if j == end {
            lemma_items_flagged(tag_of(first), payload_of(first), b, rest);
        } else {
            lemma_items_sound_tail(items);
            lemma_items_flagged_in(items.drop_first(), j - end - 1, b);
            lemma_items_flagged(
                tag_of(first),
                payload_of(first),
                last,
                rest.update(j - end - 1, b),
            );
        }
    }
}

/// The named refusal for the payload of an object of sound entries.
pub proof fn lemma_fields_flagged_in(entries: Seq<(Seq<char>, DocTree)>, j: int, b: u8)
    requires
        entries_sound(entries),
        encode_fields(entries).len() <= u64::MAX,
        fields_continuation_at(entries, j),
        b != 0 && b != 1,
    ensures
        fields_flagged(encode_fields(entries).update(j, b)),
    decreases entries, 1int,
{
    let key = entries[0].0;
    let value = entries[0].1;
    let line = encode(value);
    let last = continue_byte(entries.len() > 1);
    let rest = encode_fields(entries.drop_first());
    let start: int = framed_key(key).len() as int;
    let end: int = start + line.len();
    lemma_fields_continuation_bounds(entries, j);
    lemma_entry_update(framed_key(key), line, last, rest, j, b);
    assert(decreases_to!(entries => entries[0]));
    assert(decreases_to!(entries[0] => entries[0].1));
    if j < end {
        lemma_tree_flagged(value, j - start, b);
        lemma_encode_update(value, j - start, b);
        lemma_fields_flagged(
            key,
            tag_of(value),
            payload_of(value).update(j - start - 9, b),
            last,
            rest,
        );
    } else {
        lemma_tree_round_trip(value);
        lemma_accepted(value);
        if j == end {
            lemma_fields_flagged(key, tag_of(value), payload_of(value), b, rest);
        } else {
            lemma_entries_sound_tail(entries);
            lemma_fields_flagged_in(entries.drop_first(), j - end - 1, b);
            lemma_fields_flagged(
                key,
                tag_of(value),
                payload_of(value),
                last,
                rest.update(j - end - 1, b),
            );
        }
    }
}

} // verus!
