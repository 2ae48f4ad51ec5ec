//! The tree that a document stands for, as mathematics sees it, and what it
//! means to set and to look up keys in the entries of an object.

use vstd::prelude::*;

verus! {

/// A document as mathematics sees it: the tree that a [`DocValue`] stands for.
#[verifier::ext_equal]
pub enum DocTree {
    /// Keyed entries, in the order in which they are held.
    Object(Seq<(Seq<char>, DocTree)>),
    /// Elements in order.
    Array(Seq<DocTree>),
    /// A 64-bit signed integer.
    Int64(i64),
    /// Text.
    String(Seq<char>),
    /// The 64 bits of an IEEE-754 double.
    Float64(u64),
    /// Raw bytes.
    Binary(Seq<u8>),
    /// The absence marker.
    Null,
    /// A boolean.
    Bool(bool),
}

/// Where `key` first occurs among the entries, if it does.
pub open spec fn position(entries: Seq<(Seq<char>, DocTree)>, key: Seq<char>) -> Option<int>
    decreases entries.len(),
{
    if entries.len() == 0 {
        None
    } else if entries.last().0 == key && position(entries.drop_last(), key) is None {
        Some(entries.len() - 1)
    } else {
        position(entries.drop_last(), key)
    }
}

/// The entries after `key` is set to `value`: an entry that holds the key
/// keeps its place and takes the value, a new key goes to the end.
pub open spec fn put(entries: Seq<(Seq<char>, DocTree)>, key: Seq<char>, value: DocTree) -> Seq<
    (Seq<char>, DocTree),
> {
    match position(entries, key) {
        Some(i) => entries.update(i, (key, value)),
        None => entries.push((key, value)),
    }
}

/// The entries after each of the pairs is set in turn.
pub open spec fn put_all(
    entries: Seq<(Seq<char>, DocTree)>,
    pairs: Seq<(Seq<char>, DocTree)>,
) -> Seq<(Seq<char>, DocTree)>
    decreases pairs.len(),
{
    if pairs.len() == 0 {
        entries
    } else {
        put_all(put(entries, pairs[0].0, pairs[0].1), pairs.drop_first())
    }
}

/// No key occurs twice.
pub open spec fn distinct_keys(entries: Seq<(Seq<char>, DocTree)>) -> bool {
    forall|i: int, j: int|
        0 <= i < j < entries.len() ==> (#[trigger] entries[i]).0 != (#[trigger] entries[j]).0
}

/// What `key` holds among the entries, if they hold it.
pub open spec fn lookup(entries: Seq<(Seq<char>, DocTree)>, key: Seq<char>) -> Option<DocTree> {
    match position(entries, key) {
        Some(i) => Some(entries[i].1),
        None => None,
    }
}

/// `key` holds an object among the entries.
pub open spec fn holds_object(entries: Seq<(Seq<char>, DocTree)>, key: Seq<char>) -> bool {
    lookup(entries, key) matches Some(v) && v is Object
}

/// The path is not empty, and each of its keys holds an object.
pub open spec fn path_leads(entries: Seq<(Seq<char>, DocTree)>, path: Seq<Seq<char>>) -> bool {
    path.len() > 0 && forall|i: int|
        0 <= i < path.len() ==> #[trigger] holds_object(entries, path[i])
}

/// The entries after `key` is set to `value` in the object that the last key
/// of the path holds.
pub open spec fn put_at(
    entries: Seq<(Seq<char>, DocTree)>,
    path: Seq<Seq<char>>,
    key: Seq<char>,
    value: DocTree,
) -> Seq<(Seq<char>, DocTree)> {
    let at: int = position(entries, path.last())->Some_0;
    entries.update(at, (entries[at].0, DocTree::Object(put(entries[at].1->Object_0, key, value))))
}

impl DocTree {
    /// Every object in the tree holds each of its keys once.
    pub open spec fn wf(self) -> bool
        decreases self,
    {
        match self {
            DocTree::Object(entries) => distinct_keys(entries) && forall|i: int|
                0 <= i < entries.len() ==> (#[trigger] entries[i]).1.wf(),
            DocTree::Array(items) => forall|i: int|
                0 <= i < items.len() ==> (#[trigger] items[i]).wf(),
            _ => true,
        }
    }

    /// No object and no array in the tree is empty.
    pub open spec fn inhabited(self) -> bool
        decreases self,
    {
        match self {
            DocTree::Object(entries) => entries.len() > 0 && forall|i: int|
                0 <= i < entries.len() ==> (#[trigger] entries[i]).1.inhabited(),
            DocTree::Array(items) => items.len() > 0 && forall|i: int|
                0 <= i < items.len() ==> (#[trigger] items[i]).inhabited(),
            _ => true,
        }
    }
}

/// Setting a key keeps an object well formed.
pub proof fn lemma_put_wf(entries: Seq<(Seq<char>, DocTree)>, key: Seq<char>, value: DocTree)
    requires
        DocTree::Object(entries).wf(),
        value.wf(),
    ensures
        DocTree::Object(put(entries, key, value)).wf(),
        put(entries, key, value).len() > 0,
{
    lemma_position(entries, key);
}

/// Setting a key to a tree without empty containers keeps an object
/// without empty containers.
pub proof fn lemma_put_inhabited(
    entries: Seq<(Seq<char>, DocTree)>,
    key: Seq<char>,
    value: DocTree,
)
    requires
        forall|i: int| 0 <= i < entries.len() ==> (#[trigger] entries[i]).1.inhabited(),
        value.inhabited(),
    ensures
        DocTree::Object(put(entries, key, value)).inhabited(),
{
    lemma_position(entries, key);
}

/// Setting a key one level down keeps an object well formed.
pub proof fn lemma_put_at_wf(
    entries: Seq<(Seq<char>, DocTree)>,
    path: Seq<Seq<char>>,
    key: Seq<char>,
    value: DocTree,
)
    requires
        DocTree::Object(entries).wf(),
        value.wf(),
        path_leads(entries, path),
    ensures
        DocTree::Object(put_at(entries, path, key, value)).wf(),
{
    let last = path.last();
    assert(holds_object(entries, path[path.len() - 1]));
    lemma_position(entries, last);
    let at: int = position(entries, last)->Some_0;
    let child = entries[at].1->Object_0;
    lemma_put_wf(child, key, value);
}

/// Removing an entry keeps an object well formed.
pub proof fn lemma_remove_wf(entries: Seq<(Seq<char>, DocTree)>, at: int)
    requires
        DocTree::Object(entries).wf(),
        0 <= at < entries.len(),
    ensures
        DocTree::Object(entries.remove(at)).wf(),
{
}

/// What `position` finds: the first index that holds the key, or nothing
/// where no index does.
pub proof fn lemma_position(entries: Seq<(Seq<char>, DocTree)>, key: Seq<char>)
    ensures
        match position(entries, key) {
            Some(i) => 0 <= i < entries.len() && entries[i].0 == key && forall|j: int|
                0 <= j < i ==> (#[trigger] entries[j]).0 != key,
            None => forall|j: int| 0 <= j < entries.len() ==> (#[trigger] entries[j]).0 != key,
        },
    decreases entries.len(),
{
    if entries.len() > 0 {
        let rest = entries.drop_last();
        lemma_position(rest, key);
        assert(forall|j: int| 0 <= j < rest.len() ==> rest[j] == entries[j]);
    }
}

} // verus!
