//! Empty objects and arrays encode, but the decoder asks for one entry at
//! least.

use crate::error::DecodeError;
use crate::laws::framing::lemma_parse_line;
use crate::tree::DocTree;
use crate::wire::{encode, parse, payload_of, tag_of};
use vstd::prelude::*;

verus! {

/// **Empty containers do not come back.** The data line of an object or
/// array without entries, with nothing after it, is refused as truncated.
pub proof fn lemma_empty_container_refused(t: DocTree)
    requires
        (t matches DocTree::Object(entries) && entries.len() == 0) || (t matches DocTree::Array(
            items,
        ) && items.len() == 0),
    ensures
        parse(encode(t)) == Err::<DocTree, DecodeError>(DecodeError::Truncated),
{
    lemma_parse_line(tag_of(t), payload_of(t), Seq::empty());
    assert(encode(t) + Seq::<u8>::empty() == encode(t));
    assert(payload_of(t) + Seq::<u8>::empty() == Seq::<u8>::empty());
}

} // verus!
