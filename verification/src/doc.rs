//! Hierarchical documents.
//!
//! A document is an object / array / scalar / null tree.  Scalars carry their
//! canonical textual form; the empty text doubles as the empty-string scalar,
//! which the collectors ignore.  `obs` gives the sequence of leaf observations
//! (path, scalar text) that a traversal of a document produces, in traversal
//! order; both the functional-dependency and the inclusion-dependency
//! collectors are specified against it.

use vstd::prelude::*;

verus! {

/// One hierarchical value: an object with ordered string keys, an array, a
/// scalar in canonical textual form, or null.
pub enum Doc {
    Null,
    Scalar(String),
    Array(Vec<Doc>),
    Object(Vec<(String, Doc)>),
}

/// Extend a dotted path with an object key: a `.` separates the two unless
/// the path so far is empty.
pub open spec fn join_path(path: Seq<char>, key: Seq<char>) -> Seq<char> {
    if path.len() == 0 {
        key
    } else {
        path + seq!['.'] + key
    }
}

/// Leaf observations of a document rooted at `path`.  Arrays send every
/// element to `path + marker`; objects extend the path with each key; null
/// and empty-text scalars yield nothing.
pub open spec fn obs(d: Doc, path: Seq<char>, marker: Seq<char>) -> Seq<(Seq<char>, Seq<char>)>
    decreases d,
{
    match d {
        Doc::Null => Seq::empty(),
        Doc::Scalar(s) => if s@.len() == 0 {
            Seq::empty()
        } else {
            seq![(path, s@)]
        },
        Doc::Array(elems) => obs_list(elems@, path + marker, marker),
        Doc::Object(entries) => obs_entries(entries@, path, marker),
    }
}

/// Leaf observations of a sequence of array elements, all rooted at `path`.
pub open spec fn obs_list(elems: Seq<Doc>, path: Seq<char>, marker: Seq<char>) -> Seq<
    (Seq<char>, Seq<char>),
>
    decreases elems,
{
    if elems.len() == 0 {
        Seq::empty()
    } else {
        obs(elems[0], path, marker) + obs_list(elems.skip(1), path, marker)
    }
}

/// Leaf observations of a sequence of object entries rooted at `path`.
pub open spec fn obs_entries(entries: Seq<(String, Doc)>, path: Seq<char>, marker: Seq<char>) -> Seq<
    (Seq<char>, Seq<char>),
>
    decreases entries,
{
    if entries.len() == 0 {
        Seq::empty()
    } else {
        obs(entries[0].1, join_path(path, entries[0].0@), marker) + obs_entries(
            entries.skip(1),
            path,
            marker,
        )
    }
}

/// Size of a document tree: one per node.  Serves as the termination
/// measure of the executable traversals.
pub open spec fn doc_size(d: Doc) -> nat
    decreases d,
{
    match d {
        Doc::Null => 1,
        Doc::Scalar(_) => 1,
        Doc::Array(elems) => 1 + doc_list_size(elems@),
        Doc::Object(entries) => 1 + doc_entries_size(entries@),
    }
}

/// Total size of a sequence of array elements.
pub open spec fn doc_list_size(elems: Seq<Doc>) -> nat
    decreases elems,
{
    if elems.len() == 0 {
        0
    } else {
        doc_size(elems[0]) + doc_list_size(elems.skip(1))
    }
}

/// Total size of a sequence of object entries.
pub open spec fn doc_entries_size(entries: Seq<(String, Doc)>) -> nat
    decreases entries,
{
    if entries.len() == 0 {
        0
    } else {
        doc_size(entries[0].1) + doc_entries_size(entries.skip(1))
    }
}

/// Each array element weighs no more than the whole sequence.
pub proof fn lemma_doc_list_size_elem(elems: Seq<Doc>, i: int)
    requires
        0 <= i < elems.len(),
    ensures
        doc_size(elems[i]) <= doc_list_size(elems),
    decreases i,
{
    if i == 0 {
    } else {
        lemma_doc_list_size_elem(elems.skip(1), i - 1);
    }
}

/// Each object entry's value weighs no more than the whole sequence.
pub proof fn lemma_doc_entries_size_elem(entries: Seq<(String, Doc)>, i: int)
    requires
        0 <= i < entries.len(),
    ensures
        doc_size(entries[i].1) <= doc_entries_size(entries),
    decreases i,
{
    if i == 0 {
    } else {
        lemma_doc_entries_size_elem(entries.skip(1), i - 1);
    }
}

/// Whether a document is a leaf: null or a scalar.
pub open spec fn is_leaf(d: Doc) -> bool {
    match d {
        Doc::Null => true,
        Doc::Scalar(_) => true,
        _ => false,
    }
}

/// Copy a leaf document.
pub fn clone_leaf(d: &Doc) -> (r: Doc)
    requires
        is_leaf(*d),
    ensures
        r == *d,
{
    match d {
        Doc::Null => Doc::Null,
        Doc::Scalar(s) => Doc::Scalar(s.clone()),
        Doc::Array(_) => Doc::Null,
        Doc::Object(_) => Doc::Null,
    }
}

} // verus!
