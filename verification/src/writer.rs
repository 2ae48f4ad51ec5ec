//! The encoder: a structural recursion that frames each node as a data line.

use crate::bytes::{
    be_u64, i64_be_bytes, lemma_u64_round_trip, u64_be_bytes, write_i64_be, write_u64_be,
};
use crate::doc::{entries_of, items_of, DocValue};
use crate::error::DecodeError;
use crate::laws::round_trip::lemma_round_trip;
use crate::tree::DocTree;
use crate::wire;
use crate::wire::{
    encode, encode_fields, encode_items, ended, framed_key, parse, payload_of, utf8_of,
};
use vstd::prelude::*;

verus! {

/// Encodes a document: the data line of its root. The length field of that
/// line counts every byte after the first nine. Where no object of the
/// document holds a key twice and no object or array is empty, the bytes
/// decode to the document again.
pub fn write(doc: &DocValue) -> (r: Vec<u8>)
    ensures
        r@ == encode(doc@),
        r@.len() >= 9,
        be_u64(r@.subrange(1, 9)) == r@.len() - 9,
        doc@.wf() && doc@.inhabited() ==> parse(r@) == Ok::<DocTree, DecodeError>(doc@),
{
    let r = process_value(doc);
    proof {
        assert(r@.len() == r.len());
        lemma_u64_round_trip(payload_of(doc@).len() as u64);
        if doc@.wf() && doc@.inhabited() {
            lemma_round_trip(doc@);
        }
    }
    r
}

/// The data line of a node of any kind.
fn process_value(value: &DocValue) -> (r: Vec<u8>)
    ensures
        r@ == encode(value@),
    decreases value, 1int,
{
    if value.self_is_object() {
        return process_object(value);
    } else if value.self_is_vec() {
        return process_vec(value);
    } else if value.self_is_binary() {
        return process_binary(value);
    } else if value.self_is_num() {
        return process_num(value);
    } else if value.self_is_float() {
        return process_float(value);
    } else if value.self_is_string() {
        return process_string(value);
    } else if value.self_is_bool() {
        return process_bool(value);
    } else {
        return process_null(value);
    }
}

/// The data line of an object: for each entry the key with its length, the
/// data line of the value, and the continuation byte.
pub fn process_object(object: &DocValue) -> (r: Vec<u8>)
    requires
        object is Object,
    ensures
        r@ == encode(object@),
    decreases object, 0int,
{
    let mut build: Vec<u8> = Vec::new();
    match object {
        DocValue::Object(map) => {
            let map_len = map.len();
            let mut index: usize = 0;
            let ghost entries = entries_of(map@);
            assert(entries.skip(0) == entries);
            while index < map_len
                invariant
                    *object == DocValue::Object(*map),
                    map_len == map@.len(),
                    entries == entries_of(map@),
                    index <= map_len,
                    build@ + encode_fields(entries.skip(index as int)) == encode_fields(entries),
                decreases map_len - index,
            {
                let continue_byte: u8;
                if index == map_len - 1 {
                    continue_byte = 0;
                } else {
                    continue_byte = 1;
                }
                let key = &map[index].0;
                let value = &map[index].1;
                let mut key_data = text_bytes(key);
                let mut key_data_len = data_len_rep(key_data.len() as u64);
                proof {
                    assert(decreases_to!(*object => object->Object_0));
                    assert(decreases_to!(map@[index as int] => map@[index as int].1));
                }
                let mut processed_data = process_value(value);
                let ghost before = build@;
                let ghost rest = entries.skip(index as int);
                let ghost key_part = framed_key(rest[0].0);
                let ghost line_part = ended(encode(rest[0].1), rest.len() > 1);
                proof {
                    assert(rest[0].1 == value@);
                    assert(rest[0].0 == key@);
                    assert(rest.drop_first() == entries.skip(index + 1));
                    assert(key_data_len@ + key_data@ == key_part);
                    assert(processed_data@ + seq![continue_byte] == line_part);
                }
                build.append(&mut key_data_len);
                build.append(&mut key_data);
                build.append(&mut processed_data);
                build.push(continue_byte);
                proof {
                    assert(build@ == before + (key_part + line_part));
                    assert(build@ + encode_fields(entries.skip(index + 1)) == before + (key_part
                        + line_part + encode_fields(rest.drop_first())));
                }
                index += 1;
            }
        },
        _ => {},
    }
    data_line(0, build)
}

/// The data line of an array: for each element its data line and the
/// continuation byte.
pub fn process_vec(object: &DocValue) -> (r: Vec<u8>)
    requires
        object is Vec,
    ensures
        r@ == encode(object@),
    decreases object, 0int,
{
    let mut build: Vec<u8> = Vec::new();
    match object {
        DocValue::Vec(pool) => {
            let pool_len = pool.len();
            let mut index: usize = 0;
            let ghost items = items_of(pool@);
            assert(items.skip(0) == items);
            while index < pool_len
                invariant
                    *object == DocValue::Vec(*pool),
                    pool_len == pool@.len(),
                    items == items_of(pool@),
                    index <= pool_len,
                    build@ + encode_items(items.skip(index as int)) == encode_items(items),
                decreases pool_len - index,
            {
                let continue_byte: u8;
                if index == pool_len - 1 {
                    continue_byte = 0;
                } else {
                    continue_byte = 1;
                }
                proof {
                    assert(decreases_to!(*object => object->Vec_0));
                }
                let mut processed_value = process_value(&pool[index]);
                let ghost before = build@;
                let ghost rest = items.skip(index as int);
                let ghost line_part = ended(encode(rest[0]), rest.len() > 1);
                proof {
                    assert(rest[0] == items[index as int]);
                    assert(rest.drop_first() == items.skip(index + 1));
                    assert(processed_value@ + seq![continue_byte] == line_part);
                }
                build.append(&mut processed_value);
                build.push(continue_byte);
                proof {
                    assert(build@ == before + line_part);
                    assert(build@ + encode_items(items.skip(index + 1)) == before + (line_part
                        + encode_items(rest.drop_first())));
                }
                index += 1;
            }
        },
        _ => {},
    }
    data_line(1, build)
}

/// The data line of a binary node: its bytes as they are.
pub fn process_binary(object: &DocValue) -> (r: Vec<u8>)
    requires
        object is Binary,
    ensures
        r@ == encode(object@),
{
    match object.as_binary() {
        Some(bytes) => data_line(2, bytes),
        None => Vec::new(),
    }
}

/// The data line of a string node: its text in UTF-8.
pub fn process_string(object: &DocValue) -> (r: Vec<u8>)
    requires
        object is String,
    ensures
        r@ == encode(object@),
{
    match object {
        DocValue::String(text) => data_line(3, text_bytes(text)),
        _ => Vec::new(),
    }
}

/// The data line of an integer node: eight bytes, signed, big-endian.
pub fn process_num(object: &DocValue) -> (r: Vec<u8>)
    requires
        object is Num,
    ensures
        r@ == encode(object@),
{
    match object.as_num() {
        Some(n) => data_line(4, num_to_data(n)),
        None => Vec::new(),
    }
}

/// The data line of a float node: the eight bytes of its bit pattern,
/// big-endian.
pub fn process_float(object: &DocValue) -> (r: Vec<u8>)
    requires
        object is Float,
    ensures
        r@ == encode(object@),
{
    match object.as_float() {
        Some(bits) => data_line(5, float_to_data(bits)),
        None => Vec::new(),
    }
}

/// The data line of a boolean node: one byte, 1 for true and 0 for false.
pub fn process_bool(object: &DocValue) -> (r: Vec<u8>)
    requires
        object is Bool,
    ensures
        r@ == encode(object@),
{
    let mut data: Vec<u8> = Vec::new();
    match object.as_bool() {
        Some(true) => {
            data.push(1);
        },
        _ => {
            data.push(0);
        },
    }
    data_line(6, data)
}

/// The data line of the null node, whatever node is handed in: one byte, 0.
pub fn process_null(object: &DocValue) -> (r: Vec<u8>)
    ensures
        r@ == encode(DocTree::Null),
{
    let mut data: Vec<u8> = Vec::new();
    data.push(0);
    data_line(7, data)
}

/// The UTF-8 of a text.
fn text_bytes(text: &String) -> (r: Vec<u8>)
    ensures
        r@ == utf8_of(text@),
{
    proof {
        reveal(utf8_of);
    }
    text.as_str().as_bytes_vec()
}

/// A data line: the tag, the length of the payload in eight bytes, the
/// payload.
pub fn data_line(data_type: u8, data: Vec<u8>) -> (r: Vec<u8>)
    ensures
        r@ == wire::data_line(data_type, data@),
{
    let mut data = data;
    let mut data_len = data_len_rep(data.len() as u64);
    let mut build: Vec<u8> = Vec::new();
    build.push(data_type);
    build.append(&mut data_len);
    build.append(&mut data);
    build
}

/// The eight bytes of a length field.
pub fn data_len_rep(v: u64) -> (r: Vec<u8>)
    ensures
        r@ == u64_be_bytes(v),
{
    let mut wtr: Vec<u8> = Vec::new();
    write_u64_be(&mut wtr, v);
    wtr
}

/// The eight bytes of an integer payload.
pub fn num_to_data(v: i64) -> (r: Vec<u8>)
    ensures
        r@ == i64_be_bytes(v),
{
    let mut wtr: Vec<u8> = Vec::new();
    write_i64_be(&mut wtr, v);
    wtr
}

/// The eight bytes of a float payload, from the bit pattern of the float.
fn float_to_data(v: u64) -> (r: Vec<u8>)
    ensures
        r@ == u64_be_bytes(v),
{
    let mut wtr: Vec<u8> = Vec::new();
    write_u64_be(&mut wtr, v);
    wtr
}

} // verus!
