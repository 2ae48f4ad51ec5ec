//! The value model: a document node, its tree, and the operations that
//! build, change and read a document.

use crate::bytes::be_u64;
use crate::error::DecodeError;
use crate::laws::decoded::lemma_decoded_round_trips;
use crate::tree::{
    holds_object, lemma_position, lemma_put_at_wf, lemma_put_wf, lemma_remove_wf, lookup,
    path_leads, position, put, put_all, put_at, DocTree,
};
use crate::wire::{decoded, encode, parse};
use vstd::prelude::*;
use vstd::std_specs::iter::IteratorSpec;

verus! {

/// A document node. A node owns its children, so a document is a tree.
///
/// An object holds its entries in the order in which its keys were first
/// set. It is meant to hold each key once ([`DocTree::wf`]): the methods of
/// this type keep it so, and the decoder never makes another. A float is
/// held as its 64 bits, so that equality is equality of bit patterns.
#[derive(Debug, PartialEq, Eq)]
pub enum DocValue {
    /// Keyed entries.
    Object(Vec<(String, DocValue)>),
    /// Elements in order.
    Vec(Vec<DocValue>),
    /// A 64-bit signed integer.
    Num(i64),
    /// Text.
    String(String),
    /// The 64 bits of an IEEE-754 double.
    Float(u64),
    /// Raw bytes.
    Binary(Vec<u8>),
    /// The absence marker.
    Null,
    /// A boolean.
    Bool(bool),
}

/// The entries of an object as mathematics sees them.
pub open spec fn entries_of(m: Seq<(String, DocValue)>) -> Seq<(Seq<char>, DocTree)>
    decreases m,
{
    Seq::new(
        m.len(),
        |i: int|
            if 0 <= i < m.len() {
                (m[i].0@, tree_of(m[i].1))
            } else {
                (Seq::empty(), DocTree::Null)
            },
    )
}

/// The elements of an array as mathematics sees them.
pub open spec fn items_of(xs: Seq<DocValue>) -> Seq<DocTree>
    decreases xs,
{
    Seq::new(
        xs.len(),
        |i: int|
            if 0 <= i < xs.len() {
                tree_of(xs[i])
            } else {
                DocTree::Null
            },
    )
}

/// The tree that a node stands for.
pub open spec fn tree_of(v: DocValue) -> DocTree
    decreases v,
{
    match v {
        DocValue::Object(m) => DocTree::Object(entries_of(m@)),
        DocValue::Vec(xs) => DocTree::Array(items_of(xs@)),
        DocValue::Num(n) => DocTree::Int64(n),
        DocValue::String(s) => DocTree::String(s@),
        DocValue::Float(bits) => DocTree::Float64(bits),
        DocValue::Binary(b) => DocTree::Binary(b@),
        DocValue::Null => DocTree::Null,
        DocValue::Bool(b) => DocTree::Bool(b),
    }
}

/// The keys that a path names.
pub open spec fn path_keys(path: Seq<&str>) -> Seq<Seq<char>> {
    Seq::new(path.len(), |i: int| path[i]@)
}

impl View for DocValue {
    type V = DocTree;

    open spec fn view(&self) -> DocTree {
        tree_of(*self)
    }
}

/// Pushing one more entry onto the entries adds its tree.
pub proof fn lemma_entries_push(m: Seq<(String, DocValue)>, key: String, value: DocValue)
    ensures
        entries_of(m.push((key, value))) == entries_of(m).push((key@, value@)),
{
}

/// Replacing one entry replaces its tree.
pub proof fn lemma_entries_update(m: Seq<(String, DocValue)>, i: int, key: String, value: DocValue)
    requires
        0 <= i < m.len(),
    ensures
        entries_of(m.update(i, (key, value))) == entries_of(m).update(i, (key@, value@)),
{
}

/// Pushing one more element onto the elements adds its tree.
pub proof fn lemma_items_push(xs: Seq<DocValue>, value: DocValue)
    ensures
        items_of(xs.push(value)) == items_of(xs).push(value@),
{
}

/// A copy of the bytes.
pub(crate) fn copy_bytes(b: &Vec<u8>) -> (r: Vec<u8>)
    ensures
        r@ == b@,
{
    let mut r: Vec<u8> = Vec::new();
    let mut i: usize = 0;
    while i < b.len()
        invariant
            i <= b@.len(),
            r@ == b@.take(i as int),
        decreases b@.len() - i,
    {
        r.push(b[i]);
        i += 1;
    }
    r
}

/// A copy of the entries of an object.
pub(crate) fn copy_entries(m: &Vec<(String, DocValue)>) -> (r: Vec<(String, DocValue)>)
    ensures
        entries_of(r@) == entries_of(m@),
    decreases m,
{
    let mut entries: Vec<(String, DocValue)> = Vec::new();
    let mut i: usize = 0;
    while i < m.len()
        invariant
            i <= m@.len(),
            entries_of(entries@) == entries_of(m@.take(i as int)),
        decreases m@.len() - i,
    {
        let key = m[i].0.clone();
        let value = m[i].1.clone();
        proof {
            lemma_entries_push(entries@, key, value);
            lemma_entries_push(m@.take(i as int), m@[i as int].0, m@[i as int].1);
        }
        entries.push((key, value));
        i += 1;
    }
    entries
}

/// A copy of the elements of an array.
pub(crate) fn copy_items(xs: &Vec<DocValue>) -> (r: Vec<DocValue>)
    ensures
        items_of(r@) == items_of(xs@),
    decreases xs,
{
    let mut items: Vec<DocValue> = Vec::new();
    let mut i: usize = 0;
    while i < xs.len()
        invariant
            i <= xs@.len(),
            items_of(items@) == items_of(xs@.take(i as int)),
        decreases xs@.len() - i,
    {
        let value = xs[i].clone();
        proof {
            lemma_items_push(items@, value);
            lemma_items_push(xs@.take(i as int), xs@[i as int]);
        }
        items.push(value);
        i += 1;
    }
    items
}

impl Clone for DocValue {
    /// A copy of the whole tree.
    fn clone(&self) -> (r: DocValue)
        ensures
            r@ == self@,
        decreases self,
    {
        match self {
            DocValue::Object(m) => {
                DocValue::Object(copy_entries(m))
            },
            DocValue::Vec(xs) => {
                DocValue::Vec(copy_items(xs))
            },
            DocValue::Num(n) => DocValue::Num(*n),
            DocValue::String(s) => DocValue::String(s.clone()),
            DocValue::Float(bits) => DocValue::Float(*bits),
            DocValue::Binary(b) => DocValue::Binary(copy_bytes(b)),
            DocValue::Null => DocValue::Null,
            DocValue::Bool(b) => DocValue::Bool(*b),
        }
    }
}

/// Finds the first entry that holds `key`.
pub(crate) fn find_key(entries: &Vec<(String, DocValue)>, key: &String) -> (r: Option<usize>)
    ensures
        match r {
            Some(i) => position(entries_of(entries@), key@) == Some(i as int) && i < entries@.len(),
            None => position(entries_of(entries@), key@) is None,
        },
{
    let mut i: usize = 0;
    while i < entries.len()
        invariant
            i <= entries@.len(),
            forall|j: int| 0 <= j < i ==> (#[trigger] entries_of(entries@)[j]).0 != key@,
        decreases entries@.len() - i,
    {
        if entries[i].0 == *key {
            proof {
                lemma_position(entries_of(entries@), key@);
                assert(entries_of(entries@)[i as int].0 == key@);
            }
            return Some(i);
        }
        i += 1;
    }
    proof {
        lemma_position(entries_of(entries@), key@);
    }
    None
}

/// Sets `key` to `value` among the entries and hands back the value that the
/// key held before, if it held one.
pub(crate) fn put_entry(entries: &mut Vec<(String, DocValue)>, key: String, value: DocValue) -> (r:
    Option<DocValue>)
    ensures
        entries_of(final(entries)@) == put(entries_of(old(entries)@), key@, value@),
        match position(entries_of(old(entries)@), key@) {
            Some(i) => r == Some(old(entries)@[i].1),
            None => r is None,
        },
{
    let found = find_key(entries, &key);
    let ghost before = entries@;
    match found {
        Some(i) => {
            proof {
                lemma_entries_update(before, i as int, key, value);
            }
            entries.push((key, value));
            let old_entry = entries.swap_remove(i);
            Some(old_entry.1)
        },
        None => {
            proof {
                lemma_entries_push(before, key, value);
            }
            entries.push((key, value));
            None
        },
    }
}

impl DocValue {
    /// A string node with the text of `v`.
    pub fn str(v: &str) -> (r: DocValue)
        ensures
            r@ == DocTree::String(v@),
    {
        return DocValue::String(v.to_owned());
    }

    /// A string node that holds `v`.
    pub fn string(v: String) -> (r: DocValue)
        ensures
            r == DocValue::String(v),
    {
        return DocValue::String(v);
    }

    /// An integer node.
    pub fn num(i: i64) -> (r: DocValue)
        ensures
            r == DocValue::Num(i),
    {
        return DocValue::Num(i);
    }

    /// A float node from the 64 bits of the float.
    pub fn float(i: u64) -> (r: DocValue)
        ensures
            r == DocValue::Float(i),
    {
        return DocValue::Float(i);
    }

    /// An object without entries.
    pub fn object() -> (r: DocValue)
        ensures
            r@ == DocTree::Object(Seq::empty()),
            r@.wf(),
    {
        let r = DocValue::Object(Vec::new());
        assert(entries_of(Seq::empty()) =~= Seq::empty());
        return r;
    }

    /// An array without elements.
    pub fn vec() -> (r: DocValue)
        ensures
            r@ == DocTree::Array(Seq::empty()),
            r@.wf(),
    {
        let r = DocValue::Vec(Vec::new());
        assert(items_of(Seq::empty()) =~= Seq::empty());
        return r;
    }

    /// A binary node without bytes.
    pub fn binary() -> (r: DocValue)
        ensures
            r@ == DocTree::Binary(Seq::empty()),
    {
        return DocValue::Binary(Vec::new());
    }

    /// A boolean node.
    pub fn bool(v: bool) -> (r: DocValue)
        ensures
            r == DocValue::Bool(v),
    {
        return DocValue::Bool(v);
    }

    /// Appends to an array the node that `v` turns into. Any other node is
    /// left as it is.
    pub fn push<T>(&mut self, v: T) where T: ToDocValue
        ensures
            match old(self)@ {
                DocTree::Array(items) => final(self)@ == DocTree::Array(items.push(v.doc_tree())),
                _ => *final(self) == *old(self),
            },
            old(self)@.wf() && v.doc_tree().wf() ==> final(self)@.wf(),
    {
        match self {
            DocValue::Vec(p) => {
                let node = v.toDocValue();
                proof {
                    lemma_items_push(p@, node);
                }
                p.push(node);
            },
            _ => {},
        }
    }

    /// Removes the element at `index` from an array; those after it move up.
    /// Any other node is left as it is.
    pub fn vec_remove(&mut self, index: usize)
        requires
            *old(self) is Vec ==> index < (*old(self))->Vec_0@.len(),
        ensures
            match old(self)@ {
                DocTree::Array(items) => final(self)@ == DocTree::Array(items.remove(index as int)),
                _ => *final(self) == *old(self),
            },
            old(self)@.wf() ==> final(self)@.wf(),
    {
        match self {
            DocValue::Vec(p) => {
                let ghost before = p@;
                p.remove(index);
                assert(items_of(before.remove(index as int)) == items_of(before).remove(
                    index as int,
                ));
            },
            _ => {},
        }
    }

    /// Sets `k` in an object to the node that `v` turns into, and hands back
    /// the node that the key held before. On any other node nothing happens
    /// and nothing is handed back.
    pub fn insert<T>(&mut self, k: &str, v: T) -> (r: Option<DocValue>) where T: ToDocValue
        ensures
            match old(self)@ {
                DocTree::Object(entries) => final(self)@ == DocTree::Object(
                    put(entries, k@, v.doc_tree()),
                ) && match position(entries, k@) {
                    Some(i) => r is Some && r->Some_0@ == entries[i].1,
                    None => r is None,
                },
                _ => *final(self) == *old(self) && r is None,
            },
            old(self)@.wf() && v.doc_tree().wf() ==> final(self)@.wf(),
    {
        match self {
            DocValue::Object(d) => {
                proof {
                    lemma_position(entries_of(d@), k@);
                    if DocTree::Object(entries_of(d@)).wf() && v.doc_tree().wf() {
                        lemma_put_wf(entries_of(d@), k@, v.doc_tree());
                    }
                }
                return put_entry(d, k.to_owned(), v.toDocValue());
            },
            _ => None,
        }
    }

    /// Whether an object holds `key`; nothing for any other node.
    pub fn contains_key(&self, key: &str) -> (r: Option<bool>)
        ensures
            match self@ {
                DocTree::Object(entries) => r == Some(position(entries, key@) is Some),
                _ => r is None,
            },
    {
        match self {
            DocValue::Object(v) => {
                let found = find_key(v, &key.to_owned());
                return Some(found.is_some());
            },
            _ => {
                return None;
            },
        }
    }

    /// Removes `key` from an object and hands back the node that it held;
    /// the entries after it move up. Nothing happens where the key is not
    /// held or the node is no object.
    pub fn object_remove(&mut self, key: &str) -> (r: Option<DocValue>)
        ensures
            match old(self)@ {
                DocTree::Object(entries) => match position(entries, key@) {
                    Some(i) => final(self)@ == DocTree::Object(entries.remove(i)) && r is Some
                        && r->Some_0@ == entries[i].1,
                    None => *final(self) == *old(self) && r is None,
                },
                _ => *final(self) == *old(self) && r is None,
            },
            old(self)@.wf() ==> final(self)@.wf(),
    {
        match self {
            DocValue::Object(v) => {
                proof {
                    lemma_position(entries_of(v@), key@);
                    if DocTree::Object(entries_of(v@)).wf() && position(entries_of(v@), key@)
                        is Some {
                        lemma_remove_wf(entries_of(v@), position(entries_of(v@), key@)->Some_0);
                    }
                }
                match find_key(v, &key.to_owned()) {
                    Some(i) => {
                        let ghost before = v@;
                        let entry = v.remove(i);
                        assert(entries_of(before.remove(i as int)) == entries_of(before).remove(
                            i as int,
                        ));
                        return Some(entry.1);
                    },
                    None => {
                        return None;
                    },
                }
            },
            _ => {
                return None;
            },
        }
    }

    /// An iterator over the entries of an object, in the order in which they
    /// are held; nothing for any other node.
    pub fn object_iter(&mut self) -> (r: Option<std::slice::Iter<'_, (String, DocValue)>>)
        ensures
            *final(self) == *old(self),
            match r {
                Some(iter) => *old(self) is Object && IteratorSpec::remaining(&iter) == (*old(
                    self,
                ))->Object_0@.as_ref(),
                None => !(*old(self) is Object),
            },
    {
        match self {
            DocValue::Object(v) => {
                return Some(v.as_slice().iter());
            },
            _ => {
                return None;
            },
        }
    }

    /// The entries of an object, open to change in place; nothing for any
    /// other node. No entry can be added or taken away through what is
    /// handed out. A key can be changed with its value: who changes one has
    /// to see that no key comes twice.
    pub fn object_iter_mut(&mut self) -> (r: Option<&mut [(String, DocValue)]>)
        ensures
            match r {
                Some(entries) => *old(self) is Object && entries@ == (*old(self))->Object_0@
                    && *final(self) is Object && (*final(self))->Object_0@ == final(entries)@,
                None => !(*old(self) is Object) && *final(self) == *old(self),
            },
    {
        match self {
            DocValue::Object(v) => {
                return Some(v.as_mut_slice());
            },
            _ => {
                return None;
            },
        }
    }

    /// Sets `key` to `value` in the object that the last key of `path` holds
    /// in this object. Every key of the path has to hold an object in this
    /// object; where one does not, where the path is empty or where this
    /// node is no object, nothing happens and the call fails.
    pub fn update_path(&mut self, path: Vec<&str>, key: &str, value: DocValue) -> (r: Result<
        (),
        (),
    >)
        ensures
            match old(self)@ {
                DocTree::Object(entries) => if path_leads(entries, path_keys(path@)) {
                    r is Ok && final(self)@ == DocTree::Object(
                        put_at(entries, path_keys(path@), key@, value@),
                    )
                } else {
                    r is Err && *final(self) == *old(self)
                },
                _ => r is Err && *final(self) == *old(self),
            },
            old(self)@.wf() && value@.wf() ==> final(self)@.wf(),
    {
        match self {
            DocValue::Object(v) => {
                proof {
                    let entries = entries_of(v@);
                    if DocTree::Object(entries).wf() && value@.wf() && path_leads(
                        entries,
                        path_keys(path@),
                    ) {
                        lemma_put_at_wf(entries, path_keys(path@), key@, value@);
                    }
                }
                return update_path(path, v, key, value);
            },
            _ => {
                return Err(());
            },
        }
    }

    /// Replaces the text of a string node. Any other node is left as it is.
    pub fn update_string(&mut self, v: String)
        ensures
            *final(self) == if *old(self) is String {
                DocValue::String(v)
            } else {
                *old(self)
            },
    {
        match self {
            DocValue::String(d) => {
                *d = v
            },
            _ => {},
        }
    }

    /// Replaces the number of an integer node. Any other node is left as it
    /// is.
    pub fn update_num(&mut self, v: i64)
        ensures
            *final(self) == if *old(self) is Num {
                DocValue::Num(v)
            } else {
                *old(self)
            },
    {
        match self {
            DocValue::Num(d) => {
                *d = v
            },
            _ => {},
        }
    }

    /// Replaces the bits of a float node. Any other node is left as it is.
    pub fn update_float(&mut self, v: u64)
        ensures
            *final(self) == if *old(self) is Float {
                DocValue::Float(v)
            } else {
                *old(self)
            },
    {
        match self {
            DocValue::Float(d) => {
                *d = v
            },
            _ => {},
        }
    }

    /// Sets `k` to `v` in an object. Any other node is left as it is.
    pub fn update_object(&mut self, k: &str, v: DocValue)
        ensures
            match old(self)@ {
                DocTree::Object(entries) => final(self)@ == DocTree::Object(put(entries, k@, v@)),
                _ => *final(self) == *old(self),
            },
            old(self)@.wf() && v@.wf() ==> final(self)@.wf(),
    {
        match self {
            DocValue::Object(d) => {
                proof {
                    if DocTree::Object(entries_of(d@)).wf() && v@.wf() {
                        lemma_put_wf(entries_of(d@), k@, v@);
                    }
                }
                put_entry(d, k.to_owned(), v);
            },
            _ => {},
        }
    }

    /// Replaces the elements of an array. Any other node is left as it is.
    pub fn update_vec(&mut self, v: Vec<DocValue>)
        ensures
            *final(self) == if *old(self) is Vec {
                DocValue::Vec(v)
            } else {
                *old(self)
            },
    {
        match self {
            DocValue::Vec(d) => {
                *d = v;
            },
            _ => {},
        }
    }

    /// Replaces the bytes of a binary node. Any other node is left as it is.
    pub fn update_binary(&mut self, v: Vec<u8>)
        ensures
            *final(self) == if *old(self) is Binary {
                DocValue::Binary(v)
            } else {
                *old(self)
            },
    {
        match self {
            DocValue::Binary(d) => {
                *d = v;
            },
            _ => {},
        }
    }

    /// Replaces the value of a boolean node. Any other node is left as it
    /// is.
    pub fn update_bool(&mut self, v: bool)
        ensures
            *final(self) == if *old(self) is Bool {
                DocValue::Bool(v)
            } else {
                *old(self)
            },
    {
        match self {
            DocValue::Bool(d) => {
                *d = v;
            },
            _ => {},
        }
    }

    /// A copy of the entries, if the node is an object.
    pub fn as_object(&self) -> (r: Option<Vec<(String, DocValue)>>)
        ensures
            match r {
                Some(m) => self@ == DocTree::Object(entries_of(m@)),
                None => !(self is Object),
            },
    {
        match self {
            DocValue::Object(v) => {
                return Some(copy_entries(v));
            },
            _ => {
                return None;
            },
        }
    }

    /// A copy of the elements, if the node is an array.
    pub fn as_vec(&self) -> (r: Option<Vec<DocValue>>)
        ensures
            match r {
                Some(xs) => self@ == DocTree::Array(items_of(xs@)),
                None => !(self is Vec),
            },
    {
        match self {
            DocValue::Vec(v) => {
                return Some(copy_items(v));
            },
            _ => {
                return None;
            },
        }
    }

    /// A copy of the bytes, if the node is binary.
    pub fn as_binary(&self) -> (r: Option<Vec<u8>>)
        ensures
            match r {
                Some(b) => self@ == DocTree::Binary(b@),
                None => !(self is Binary),
            },
    {
        match self {
            DocValue::Binary(v) => {
                return Some(copy_bytes(v));
            },
            _ => {
                return None;
            },
        }
    }

    /// A copy of the text, if the node is a string.
    pub fn as_string(&self) -> (r: Option<String>)
        ensures
            match r {
                Some(s) => *self == DocValue::String(s),
                None => !(self is String),
            },
    {
        match self {
            DocValue::String(v) => {
                return Some(v.clone());
            },
            _ => {
                return None;
            },
        }
    }

    /// The number, if the node is an integer.
    pub fn as_num(&self) -> (r: Option<i64>)
        ensures
            match r {
                Some(n) => *self == DocValue::Num(n),
                None => !(self is Num),
            },
    {
        match self {
            DocValue::Num(v) => {
                return Some(*v);
            },
            _ => {
                return None;
            },
        }
    }

    /// The 64 bits of the float, if the node is a float.
    pub fn as_float(&self) -> (r: Option<u64>)
        ensures
            match r {
                Some(bits) => *self == DocValue::Float(bits),
                None => !(self is Float),
            },
    {
        match self {
            DocValue::Float(v) => {
                return Some(*v);
            },
            _ => {
                return None;
            },
        }
    }

    /// The boolean, if the node is one.
    pub fn as_bool(&self) -> (r: Option<bool>)
        ensures
            match r {
                Some(b) => *self == DocValue::Bool(b),
                None => !(self is Bool),
            },
    {
        match self {
            DocValue::Bool(v) => {
                return Some(*v);
            },
            _ => {
                return None;
            },
        }
    }

    /// Whether the node is an object.
    pub fn self_is_object(&self) -> (r: bool)
        ensures
            r == (self is Object),
    {
        match self {
            DocValue::Object(_v) => {
                return true;
            },
            _ => {
                return false;
            },
        }
    }

    /// Whether the node is an array.
    pub fn self_is_vec(&self) -> (r: bool)
        ensures
            r == (self is Vec),
    {
        match self {
            DocValue::Vec(_v) => {
                return true;
            },
            _ => {
                return false;
            },
        }
    }

    /// Whether the node is binary.
    pub fn self_is_binary(&self) -> (r: bool)
        ensures
            r == (self is Binary),
    {
        match self {
            DocValue::Binary(_v) => {
                return true;
            },
            _ => {
                return false;
            },
        }
    }

    /// Whether the node is a string.
    pub fn self_is_string(&self) -> (r: bool)
        ensures
            r == (self is String),
    {
        match self {
            DocValue::String(_v) => {
                return true;
            },
            _ => {
                return false;
            },
        }
    }

    /// Whether the node is an integer.
    pub fn self_is_num(&self) -> (r: bool)
        ensures
            r == (self is Num),
    {
        match self {
            DocValue::Num(_v) => {
                return true;
            },
            _ => {
                return false;
            },
        }
    }

    /// Whether the node is a float.
    pub fn self_is_float(&self) -> (r: bool)
        ensures
            r == (self is Float),
    {
        match self {
            DocValue::Float(_v) => {
                return true;
            },
            _ => {
                return false;
            },
        }
    }

    /// Whether the node is a boolean.
    pub fn self_is_bool(&self) -> (r: bool)
        ensures
            r == (self is Bool),
    {
        match self {
            DocValue::Bool(_v) => {
                return true;
            },
            _ => {
                return false;
            },
        }
    }

    /// Whether the node is the null node.
    pub fn self_is_null(&self) -> (r: bool)
        ensures
            r == (self is Null),
    {
        match self {
            DocValue::Null => {
                return true;
            },
            _ => {
                return false;
            },
        }
    }

    /// The node that `key` holds in an object, if the node is an object and
    /// holds the key.
    fn get(&self, key: &str) -> (r: Option<&DocValue>)
        ensures
            match r {
                Some(v) => self@ is Object && lookup(self@->Object_0, key@) == Some(v@),
                None => !(self@ is Object) || lookup(self@->Object_0, key@) is None,
            },
    {
        match self {
            DocValue::Object(v) => {
                match find_key(v, &key.to_owned()) {
                    Some(i) => Some(&v[i].1),
                    None => None,
                }
            },
            _ => None,
        }
    }

    /// Whether the node is an object in which `key` holds an object.
    pub fn key_is_object(&self, key: &str) -> (r: bool)
        ensures
            r == (self@ matches DocTree::Object(entries) && lookup(entries, key@) matches Some(v)
                && v is Object),
    {
        match self.get(key) {
            Some(d) => d.self_is_object(),
            None => false,
        }
    }

    /// Whether the node is an object in which `key` holds an array.
    pub fn key_is_vec(&self, key: &str) -> (r: bool)
        ensures
            r == (self@ matches DocTree::Object(entries) && lookup(entries, key@) matches Some(v)
                && v is Array),
    {
        match self.get(key) {
            Some(d) => d.self_is_vec(),
            None => false,
        }
    }

    /// Whether the node is an object in which `key` holds binary.
    pub fn key_is_binary(&self, key: &str) -> (r: bool)
        ensures
            r == (self@ matches DocTree::Object(entries) && lookup(entries, key@) matches Some(v)
                && v is Binary),
    {
        match self.get(key) {
            Some(d) => d.self_is_binary(),
            None => false,
        }
    }

    /// Whether the node is an object in which `key` holds a string.
    pub fn key_is_string(&self, key: &str) -> (r: bool)
        ensures
            r == (self@ matches DocTree::Object(entries) && lookup(entries, key@) matches Some(v)
                && v is String),
    {
        match self.get(key) {
            Some(d) => d.self_is_string(),
            None => false,
        }
    }

    /// Whether the node is an object in which `key` holds an integer.
    pub fn key_is_num(&self, key: &str) -> (r: bool)
        ensures
            r == (self@ matches DocTree::Object(entries) && lookup(entries, key@) matches Some(v)
                && v is Int64),
    {
        match self.get(key) {
            Some(d) => d.self_is_num(),
            None => false,
        }
    }

    /// Whether the node is an object in which `key` holds a float.
    pub fn key_is_float(&self, key: &str) -> (r: bool)
        ensures
            r == (self@ matches DocTree::Object(entries) && lookup(entries, key@) matches Some(v)
                && v is Float64),
    {
        match self.get(key) {
            Some(d) => d.self_is_float(),
            None => false,
        }
    }

    /// Whether the node is an object in which `key` holds a boolean.
    pub fn key_is_bool(&self, key: &str) -> (r: bool)
        ensures
            r == (self@ matches DocTree::Object(entries) && lookup(entries, key@) matches Some(v)
                && v is Bool),
    {
        match self.get(key) {
            Some(d) => d.self_is_bool(),
            None => false,
        }
    }

    /// Whether the node is an object in which `key` holds the null node.
    pub fn key_is_null(&self, key: &str) -> (r: bool)
        ensures
            r == (self@ matches DocTree::Object(entries) && lookup(entries, key@) matches Some(v)
                && v is Null),
    {
        match self.get(key) {
            Some(d) => d.self_is_null(),
            None => false,
        }
    }

    /// The document as bytes: the data line of this node. Where no object
    /// of the document holds a key twice and no object or array is empty,
    /// the bytes decode to the document again.
    pub fn write(&self) -> (r: Vec<u8>)
        ensures
            r@ == encode(self@),
            r@.len() >= 9,
            be_u64(r@.subrange(1, 9)) == r@.len() - 9,
            self@.wf() && self@.inhabited() ==> parse(r@) == Ok::<DocTree, DecodeError>(self@),
    {
        crate::writer::write(self)
    }

    /// The document that the data line at the start of `data` spells. A
    /// document that comes out holds no key twice and no empty container,
    /// and encoding it gives a data line that decodes to it again, as long
    /// as that line is short enough for its length field.
    pub fn read(data: &Vec<u8>) -> (r: Result<DocValue, DecodeError>)
        ensures
            decoded(r) == parse(data@),
            r matches Ok(v) ==> v@.wf() && v@.inhabited() && (encode(v@).len() <= u64::MAX
                ==> parse(encode(v@)) == Ok::<DocTree, DecodeError>(v@)),
    {
        proof {
            assert(data@.len() == data.len());
            lemma_decoded_round_trips(data@);
            crate::laws::decoded::lemma_parsed_sound(data@);
        }
        let mut reader = crate::reader::Reader::new(data);
        reader.build()
    }
}

/// Sets `key` to `value` in the object that the last key of `path` holds
/// among the entries of `pool`, after checking that every key of the path
/// holds an object there.
fn update_path(
    path: Vec<&str>,
    pool: &mut Vec<(String, DocValue)>,
    key: &str,
    value: DocValue,
) -> (r: Result<(), ()>)
    ensures
        if path_leads(entries_of(old(pool)@), path_keys(path@)) {
            r is Ok && entries_of(final(pool)@) == put_at(
                entries_of(old(pool)@),
                path_keys(path@),
                key@,
                value@,
            )
        } else {
            r is Err && *final(pool) == *old(pool)
        },
{
    if path.len() == 0 {
        return Err(());
    }
    let ghost entries = entries_of(pool@);
    let ghost keys = path_keys(path@);
    let mut hold: usize = 0;
    let mut n: usize = 0;
    while n < path.len()
        invariant
            n <= path@.len(),
            path@.len() > 0,
            *pool == *old(pool),
            entries == entries_of(pool@),
            keys == path_keys(path@),
            forall|i: int|
                0 <= i < n ==> #[trigger] holds_object(entries, keys[i]),
            n > 0 ==> position(entries, keys[n - 1]) == Some(hold as int) && hold < pool@.len()
                && pool@[hold as int].1 is Object,
        decreases path@.len() - n,
    {
        let item: &str = path[n];
        match find_key(pool, &item.to_owned()) {
            Some(j) => {
                match &pool[j].1 {
                    DocValue::Object(_s) => {
                        hold = j;
                    },
                    _ => {
                        assert(!holds_object(entries, keys[n as int]));
                        return Err(());
                    },
                }
            },
            None => {
                assert(!holds_object(entries, keys[n as int]));
                return Err(());
            },
        }
        n += 1;
    }
    match &mut pool[hold].1 {
        DocValue::Object(s) => {
            put_entry(s, key.to_owned(), value);
        },
        _ => {},
    }
    return Ok(());
}

/// What can be turned into a document node.
#[allow(non_snake_case)]
pub trait ToDocValue {
    /// The tree of the node that the value turns into.
    spec fn doc_tree(&self) -> DocTree;

    /// The node that the value turns into.
    fn toDocValue(&self) -> (r: DocValue)
        ensures
            r@ == self.doc_tree(),
    ;
}

impl ToDocValue for DocValue {
    open spec fn doc_tree(&self) -> DocTree {
        self@
    }

    fn toDocValue(&self) -> (r: DocValue) {
        self.clone()
    }
}

impl ToDocValue for bool {
    open spec fn doc_tree(&self) -> DocTree {
        DocTree::Bool(*self)
    }

    fn toDocValue(&self) -> (r: DocValue) {
        DocValue::Bool(*self)
    }
}

impl ToDocValue for String {
    open spec fn doc_tree(&self) -> DocTree {
        DocTree::String(self@)
    }

    fn toDocValue(&self) -> (r: DocValue) {
        DocValue::String(self.clone())
    }
}

impl ToDocValue for &str {
    open spec fn doc_tree(&self) -> DocTree {
        DocTree::String(self@)
    }

    fn toDocValue(&self) -> (r: DocValue) {
        let text: &str = *self;
        DocValue::String(text.to_owned())
    }
}

impl ToDocValue for i64 {
    open spec fn doc_tree(&self) -> DocTree {
        DocTree::Int64(*self)
    }

    fn toDocValue(&self) -> (r: DocValue) {
        DocValue::Num(*self)
    }
}

impl ToDocValue for Vec<DocValue> {
    open spec fn doc_tree(&self) -> DocTree {
        DocTree::Array(items_of(self@))
    }

    fn toDocValue(&self) -> (r: DocValue) {
        DocValue::Vec(copy_items(self))
    }
}

impl ToDocValue for Vec<u8> {
    open spec fn doc_tree(&self) -> DocTree {
        DocTree::Binary(self@)
    }

    fn toDocValue(&self) -> (r: DocValue) {
        DocValue::Binary(copy_bytes(self))
    }
}

impl ToDocValue for Vec<(String, DocValue)> {
    /// The object that takes the pairs in order: a key that comes again
    /// keeps its place and takes the later value.
    open spec fn doc_tree(&self) -> DocTree {
        DocTree::Object(put_all(Seq::empty(), entries_of(self@)))
    }

    fn toDocValue(&self) -> (r: DocValue) {
        let mut entries: Vec<(String, DocValue)> = Vec::new();
        let mut i: usize = 0;
        let ghost pairs = entries_of(self@);
        assert(entries_of(entries@) =~= Seq::empty());
        assert(pairs.skip(0) == pairs);
        while i < self.len()
            invariant
                i <= self@.len(),
                pairs == entries_of(self@),
                put_all(entries_of(entries@), pairs.skip(i as int)) == put_all(Seq::empty(), pairs),
            decreases self@.len() - i,
        {
            let key = self[i].0.clone();
            let value = self[i].1.clone();
            assert(pairs.skip(i as int).drop_first() == pairs.skip(i + 1));
            put_entry(&mut entries, key, value);
            i += 1;
        }
        DocValue::Object(entries)
    }
}

impl ToDocValue for () {
    open spec fn doc_tree(&self) -> DocTree {
        DocTree::Null
    }

    fn toDocValue(&self) -> (r: DocValue) {
        DocValue::Null
    }
}

} // verus!
