//! What holds of every tree that the decoder hands out.

use crate::error::DecodeError;
use crate::laws::round_trip::lemma_round_trip;
use crate::tree::{distinct_keys, lemma_put_inhabited, lemma_put_wf, put, DocTree};
use crate::wire::{
    after_line, after_nested, body_of, encode, has_line, len_field, parse, parse_fields,
    parse_items, parse_key, parse_payload, TAG_OBJECT, TAG_VEC,
};
use vstd::prelude::*;

verus! {

/// **Decoded trees are sound.** A tree that comes out of the decoder holds
/// no key twice in any object, and no empty object or array.
pub proof fn lemma_parsed_sound(s: Seq<u8>)
    ensures
        parse(s) matches Ok(t) ==> t.wf() && t.inhabited(),
    decreases s.len(), 1int,
{
    if has_line(s) {
        lemma_payload_sound(s[0], body_of(s), len_field(s.skip(1)));
    }
}

/// **Decoded trees round-trip.** A tree that a buffer decodes to, and whose
/// data line is short enough for its length field, encodes to a data line
/// that decodes to the same tree.
pub proof fn lemma_decoded_round_trips(s: Seq<u8>)
    ensures
        parse(s) matches Ok(t) ==> (encode(t).len() <= u64::MAX ==> parse(encode(t)) == Ok::<
            DocTree,
            DecodeError,
        >(t)),
{
    lemma_parsed_sound(s);
    match parse(s) {
        Ok(t) => {
            if encode(t).len() <= u64::MAX {
                lemma_round_trip(t);
            }
        },
        Err(_) => {},
    }
}

/// Every tree of the sequence is well formed and holds no empty container.
pub open spec fn all_sound(items: Seq<DocTree>) -> bool {
    forall|i: int| 0 <= i < items.len() ==> (#[trigger] items[i]).wf() && items[i].inhabited()
}

/// No key comes twice, and every value is well formed and holds no empty
/// container.
pub open spec fn values_sound(entries: Seq<(Seq<char>, DocTree)>) -> bool {
    distinct_keys(entries) && forall|i: int|
        0 <= i < entries.len() ==> (#[trigger] entries[i]).1.wf() && entries[i].1.inhabited()
}

/// What a payload spells is sound.
pub proof fn lemma_payload_sound(tag: u8, body: Seq<u8>, n: int)
    ensures
        parse_payload(tag, body, n) matches Ok(t) ==> t.wf() && t.inhabited(),
    decreases body.len(), 3int,
{
    if tag == TAG_OBJECT {
        lemma_fields_sound(body, Seq::empty());
    } else if tag == TAG_VEC {
        lemma_items_sound(body, Seq::empty());
    }
}

/// The elements that an array payload spells are sound, and there is at
/// least one.
pub proof fn lemma_items_sound(p: Seq<u8>, seen: Seq<DocTree>)
    requires
        all_sound(seen),
    ensures
        parse_items(p, seen) matches Ok(items) ==> all_sound(items) && items.len() > 0,
    decreases p.len(), 2int,
{
    if has_line(p) {
        lemma_parsed_sound(p);
        match parse(p) {
            Ok(item) => {
                let rest = after_line(p);
                lemma_push_sound(seen, item);
                if rest.len() >= 1 && rest[0] == 1 {
                    lemma_items_sound(rest.skip(1), seen.push(item));
                }
            },
            Err(_) => {},
        }
    }
}

/// The entries that an object payload spells are sound, and there is at
/// least one.
pub proof fn lemma_fields_sound(p: Seq<u8>, seen: Seq<(Seq<char>, DocTree)>)
    requires
        values_sound(seen),
    ensures
        parse_fields(p, seen) matches Ok(entries) ==> values_sound(entries) && entries.len() > 0,
    decreases p.len(), 2int,
{
    match parse_key(p) {
        Ok(key) => {
            let q = after_nested(p);
            if has_line(q) {
                lemma_parsed_sound(q);
                match parse(q) {
                    Ok(value) => {
                        let rest = after_line(q);
                        lemma_put_sound(seen, key, value);
                        if rest.len() >= 1 && rest[0] == 1 {
                            lemma_fields_sound(rest.skip(1), put(seen, key, value));
                        }
                    },
                    Err(_) => {},
                }
            }
        },
        Err(_) => {},
    }
}

/// A sound sequence stays sound when a sound tree joins it.
pub proof fn lemma_push_sound(seen: Seq<DocTree>, item: DocTree)
    requires
        all_sound(seen),
        item.wf(),
        item.inhabited(),
    ensures
        all_sound(seen.push(item)),
{
}

/// Sound entries stay sound when a key is set to a sound tree.
pub proof fn lemma_put_sound(seen: Seq<(Seq<char>, DocTree)>, key: Seq<char>, value: DocTree)
    requires
        values_sound(seen),
        value.wf(),
        value.inhabited(),
    ensures
        values_sound(put(seen, key, value)),
        put(seen, key, value).len() > 0,
{
    lemma_put_wf(seen, key, value);
    lemma_put_inhabited(seen, key, value);
}

} // verus!
