//! Value collection for inclusion-dependency discovery.
//!
//! The collector traverses a document and records, per leaf path, the set of
//! interned value indices observed there.  Its behaviour is a left fold of
//! `ind_step` over the document's leaf observations.

use vstd::prelude::*;

use crate::bits::{bitmap_model, bm_insert, bm_new};
use crate::doc::{
    doc_entries_size, doc_list_size, doc_size, join_path, lemma_doc_entries_size_elem,
    lemma_doc_list_size_elem, obs, obs_entries, obs_list, Doc,
};
use crate::intern::{intern_index, intern_table, string_eq, Interner};

verus! {

/// The array marker appended to a path for every array element.
pub open spec fn ind_marker() -> Seq<char> {
    "[*]"@
}

/// Insert value index `x` under path `p`: the first entry keyed `p` gains
/// `x`; when no entry is keyed `p`, a new entry holding only `x` is appended.
pub open spec fn pm_insert(vals: Seq<(Seq<char>, Set<u32>)>, p: Seq<char>, x: u32) -> Seq<
    (Seq<char>, Set<u32>),
>
    decreases vals.len(),
{
    if vals.len() == 0 {
        seq![(p, Set::<u32>::empty().insert(x))]
    } else if vals[0].0 == p {
        seq![(vals[0].0, vals[0].1.insert(x))] + vals.skip(1)
    } else {
        seq![vals[0]] + pm_insert(vals.skip(1), p, x)
    }
}

/// One leaf observation `(path, text)` applied to the collector state: the
/// text is interned and its index recorded under the path.
pub open spec fn ind_step(
    tbl: Seq<Seq<char>>,
    vals: Seq<(Seq<char>, Set<u32>)>,
    o: (Seq<char>, Seq<char>),
) -> (Seq<Seq<char>>, Seq<(Seq<char>, Set<u32>)>) {
    (intern_table(tbl, o.1), pm_insert(vals, o.0, intern_index(tbl, o.1) as u32))
}

/// Left fold of `ind_step` over a sequence of leaf observations.
pub open spec fn ind_fold(
    tbl: Seq<Seq<char>>,
    vals: Seq<(Seq<char>, Set<u32>)>,
    os: Seq<(Seq<char>, Seq<char>)>,
) -> (Seq<Seq<char>>, Seq<(Seq<char>, Set<u32>)>)
    decreases os.len(),
{
    if os.len() == 0 {
        (tbl, vals)
    } else {
        let (tbl1, vals1) = ind_step(tbl, vals, os[0]);
        ind_fold(tbl1, vals1, os.skip(1))
    }
}

/// Folding a concatenation folds the two parts in turn.
pub proof fn lemma_ind_fold_app(
    tbl: Seq<Seq<char>>,
    vals: Seq<(Seq<char>, Set<u32>)>,
    a: Seq<(Seq<char>, Seq<char>)>,
    b: Seq<(Seq<char>, Seq<char>)>,
)
    ensures
        ind_fold(tbl, vals, a + b) == ind_fold(
            ind_fold(tbl, vals, a).0,
            ind_fold(tbl, vals, a).1,
            b,
        ),
    decreases a.len(),
{
    if a.len() == 0 {
        assert(a + b =~= b);
    } else {
        let (tbl1, vals1) = ind_step(tbl, vals, a[0]);
        assert((a + b)[0] == a[0]);
        assert((a + b).skip(1) =~= a.skip(1) + b);
        lemma_ind_fold_app(tbl1, vals1, a.skip(1), b);
    }
}

/// The fold adds at most one table entry per observation.
pub proof fn lemma_ind_fold_tbl_len(
    tbl: Seq<Seq<char>>,
    vals: Seq<(Seq<char>, Set<u32>)>,
    os: Seq<(Seq<char>, Seq<char>)>,
)
    ensures
        ind_fold(tbl, vals, os).0.len() <= tbl.len() + os.len(),
    decreases os.len(),
{
    if os.len() != 0 {
        let (tbl1, vals1) = ind_step(tbl, vals, os[0]);
        lemma_ind_fold_tbl_len(tbl1, vals1, os.skip(1));
    }
}

/// When the first entry keyed `p` stands at `k`, `pm_insert` updates it.
proof fn lemma_pm_insert_present(vals: Seq<(Seq<char>, Set<u32>)>, p: Seq<char>, x: u32, k: int)
    requires
        0 <= k < vals.len(),
        vals[k].0 == p,
        forall|j: int| 0 <= j < k ==> vals[j].0 != p,
    ensures
        pm_insert(vals, p, x) =~= vals.update(k, (vals[k].0, vals[k].1.insert(x))),
    decreases k,
{
    if k == 0 {
    } else {
        lemma_pm_insert_present(vals.skip(1), p, x, k - 1);
    }
}

/// When no entry is keyed `p`, `pm_insert` appends a fresh entry.
proof fn lemma_pm_insert_absent(vals: Seq<(Seq<char>, Set<u32>)>, p: Seq<char>, x: u32)
    requires
        forall|j: int| 0 <= j < vals.len() ==> vals[j].0 != p,
    ensures
        pm_insert(vals, p, x) =~= vals.push((p, Set::<u32>::empty().insert(x))),
    decreases vals.len(),
{
    if vals.len() != 0 {
        lemma_pm_insert_absent(vals.skip(1), p, x);
    }
}

/// Collector state for inclusion-dependency discovery: the interning table
/// and, per leaf path, the bitmap of value indices observed at it.
pub struct IndState {
    interner: Interner,
    entries: Vec<(String, roaring::RoaringBitmap)>,
}

impl IndState {
    /// The interning table: the scalar text of each value index.
    pub closed spec fn tbl(self) -> Seq<Seq<char>> {
        self.interner@
    }

    /// Per-path value sets, in order of first observation.
    pub closed spec fn vals(self) -> Seq<(Seq<char>, Set<u32>)> {
        self.entries@.map_values(
            |e: (String, roaring::RoaringBitmap)| (e.0@, bitmap_model(e.1)),
        )
    }

    /// Table entries distinct, path keys distinct, value sets finite, and
    /// every value index below the table length.
    pub open spec fn wf(self) -> bool {
        &&& (forall|i: int, j: int|
            0 <= i < j < self.tbl().len() ==> self.tbl()[i] != self.tbl()[j])
        &&& (forall|i: int, j: int|
            0 <= i < j < self.vals().len() ==> self.vals()[i].0 != self.vals()[j].0)
        &&& (forall|i: int| 0 <= i < self.vals().len() ==> (#[trigger] self.vals()[i]).1.finite())
    }

    /// An empty collector.
    pub fn new() -> (r: IndState)
        ensures
            r.tbl() == Seq::<Seq<char>>::empty(),
            r.vals() == Seq::<(Seq<char>, Set<u32>)>::empty(),
            r.wf(),
    {
        let r = IndState { interner: Interner::new(), entries: Vec::new() };
        proof {
            assert(r.vals() =~= Seq::<(Seq<char>, Set<u32>)>::empty());
        }
        r
    }

    /// Number of interned scalar texts.
    pub fn interner_len(&self) -> (r: usize)
        ensures
            r == self.tbl().len(),
    {
        self.interner.len()
    }

    /// Number of paths with at least one recorded value.
    pub fn path_count(&self) -> (r: usize)
        ensures
            r == self.vals().len(),
    {
        self.entries.len()
    }

    /// The path stored at an entry.
    pub fn path_at(&self, i: usize) -> (r: &String)
        requires
            i < self.vals().len(),
        ensures
            r@ == self.vals()[i as int].0,
    {
        &self.entries[i].0
    }

    /// The bitmap of value indices observed at an entry's path.
    pub fn bitmap_at(&self, i: usize) -> (r: &roaring::RoaringBitmap)
        requires
            i < self.vals().len(),
        ensures
            bitmap_model(*r) == self.vals()[i as int].1,
    {
        &self.entries[i].1
    }

    /// Index of the first entry keyed by `path`, if any.
    pub fn find_path(&self, path: &String) -> (r: Option<usize>)
        ensures
            match r {
                Some(k) => k < self.vals().len() && self.vals()[k as int].0 == path@ && forall|
                    j: int,
                |
                    0 <= j < k ==> self.vals()[j].0 != path@,
                None => forall|j: int| 0 <= j < self.vals().len() ==> self.vals()[j].0 != path@,
            },
    {
        let n = self.entries.len();
        let mut k: usize = 0;
        while k < n
            invariant
                n == self.vals().len(),
                k <= n,
                forall|j: int| 0 <= j < k ==> self.vals()[j].0 != path@,
            decreases n - k,
        {
            if string_eq(&self.entries[k].0, path) {
                return Some(k);
            }
            k += 1;
        }
        None
    }

    /// Whether a scalar text has been interned.
    pub fn has_value(&self, s: &String) -> (r: bool)
        ensures
            r == self.tbl().contains(s@),
    {
        let n = self.interner.len();
        let mut k: usize = 0;
        while k < n
            invariant
                n == self.tbl().len(),
                k <= n,
                forall|j: int| 0 <= j < k ==> self.tbl()[j] != s@,
            decreases n - k,
        {
            if string_eq(self.interner.lookup(k), s) {
                proof {
                    assert(self.tbl().contains(s@)) by {
                        assert(self.tbl()[k as int] == s@);
                    }
                }
                return true;
            }
            k += 1;
        }
        false
    }

    /// Record one leaf observation.
    fn record(&mut self, path: &String, text: &String)
        requires
            old(self).wf(),
            old(self).tbl().len() < u32::MAX,
        ensures
            final(self).wf(),
            (final(self).tbl(), final(self).vals()) == ind_step(
                old(self).tbl(),
                old(self).vals(),
                (path@, text@),
            ),
            final(self).tbl().len() <= old(self).tbl().len() + 1,
    {
        let idx = self.interner.intern(text);
        let x: u32 = idx as u32;
        match self.find_path(path) {
            Some(k) => {
                proof {
                    lemma_pm_insert_present(self.vals(), path@, x, k as int);
                }
                let e = &mut self.entries[k].1;
                bm_insert(e, x);
                proof {
                    assert(self.vals() =~= pm_insert(old(self).vals(), path@, x));
                }
            },
            None => {
                proof {
                    lemma_pm_insert_absent(self.vals(), path@, x);
                }
                let mut bm = bm_new();
                bm_insert(&mut bm, x);
                self.entries.push((path.clone(), bm));
                proof {
                    assert(self.vals() =~= pm_insert(old(self).vals(), path@, x));
                }
            },
        }
    }

    /// Traverse a document rooted at `path`, interning every non-null,
    /// non-empty scalar and recording its value index under its leaf path.
    pub fn collect_values(&mut self, path: &String, d: &Doc)
        requires
            old(self).wf(),
            old(self).tbl().len() + obs(*d, path@, ind_marker()).len() <= u32::MAX,
        ensures
            final(self).wf(),
            (final(self).tbl(), final(self).vals()) == ind_fold(
                old(self).tbl(),
                old(self).vals(),
                obs(*d, path@, ind_marker()),
            ),
            final(self).tbl().len() <= old(self).tbl().len() + obs(
                *d,
                path@,
                ind_marker(),
            ).len(),
        decreases doc_size(*d),
    {
        match d {
            Doc::Null => {
                proof {
                    assert(obs(*d, path@, ind_marker()) =~= Seq::<(Seq<char>, Seq<char>)>::empty());
                }
            },
            Doc::Scalar(s) => {
                if !s.as_str().is_empty() {
                    self.record(path, s);
                    proof {
                        let os = obs(*d, path@, ind_marker());
                        let stepped = ind_step(old(self).tbl(), old(self).vals(), (path@, s@));
                        assert(os == seq![(path@, s@)]);
                        assert(os[0] == (path@, s@));
                        assert(os.skip(1) =~= Seq::<(Seq<char>, Seq<char>)>::empty());
                        assert(ind_fold(stepped.0, stepped.1, os.skip(1)) == stepped);
                        assert(ind_fold(old(self).tbl(), old(self).vals(), os) == ind_fold(
                            stepped.0,
                            stepped.1,
                            os.skip(1),
                        ));
                    }
                }
            },
            Doc::Array(elems) => {
                let ghost os = obs(*d, path@, ind_marker());
                let mut ap = path.clone();
                ap.append("[*]");
                proof {
                    assert(ap@ == path@ + ind_marker());
                    assert(os == obs_list(elems@, ap@, ind_marker()));
                    assert(elems@.skip(0) =~= elems@);
                }
                let ghost st0 = *self;
                let n = elems.len();
                let mut i: usize = 0;
                while i < n
                    invariant
                        *d == Doc::Array(*elems),
                        n == elems@.len(),
                        i <= n,
                        self.wf(),
                        self.tbl().len() + obs_list(elems@.skip(i as int), ap@, ind_marker()).len()
                            <= u32::MAX,
                        ind_fold(st0.tbl(), st0.vals(), os) == ind_fold(
                            self.tbl(),
                            self.vals(),
                            obs_list(elems@.skip(i as int), ap@, ind_marker()),
                        ),
                        self.tbl().len() + obs_list(elems@.skip(i as int), ap@, ind_marker()).len()
                            <= st0.tbl().len() + os.len(),
                    decreases n - i,
                {
                    let ghost pre = *self;
                    let ghost rest = obs_list(elems@.skip(i as int), ap@, ind_marker());
                    let ghost head = obs(elems@[i as int], ap@, ind_marker());
                    let ghost tail = obs_list(elems@.skip(i as int + 1), ap@, ind_marker());
                    proof {
                        assert(elems@.skip(i as int)[0] == elems@[i as int]);
                        assert(elems@.skip(i as int).skip(1) =~= elems@.skip(i as int + 1));
                        assert(rest == head + tail);
                        lemma_ind_fold_app(pre.tbl(), pre.vals(), head, tail);
                        lemma_doc_list_size_elem(elems@, i as int);
                        assert(doc_size(*d) == 1 + doc_list_size(elems@));
                    }
                    self.collect_values(&ap, &elems[i]);
                    i += 1;
                }
                proof {
                    assert(obs_list(elems@.skip(n as int), ap@, ind_marker()).len() == 0);
                }
            },
            Doc::Object(entries) => {
                let ghost os = obs(*d, path@, ind_marker());
                proof {
                    assert(os == obs_entries(entries@, path@, ind_marker()));
                    assert(entries@.skip(0) =~= entries@);
                }
                let ghost st0 = *self;
                let n = entries.len();
                let mut i: usize = 0;
                while i < n
                    invariant
                        *d == Doc::Object(*entries),
                        n == entries@.len(),
                        i <= n,
                        self.wf(),
                        self.tbl().len() + obs_entries(
                            entries@.skip(i as int),
                            path@,
                            ind_marker(),
                        ).len() <= u32::MAX,
                        ind_fold(st0.tbl(), st0.vals(), os) == ind_fold(
                            self.tbl(),
                            self.vals(),
                            obs_entries(entries@.skip(i as int), path@, ind_marker()),
                        ),
                        self.tbl().len() + obs_entries(
                            entries@.skip(i as int),
                            path@,
                            ind_marker(),
                        ).len() <= st0.tbl().len() + os.len(),
                    decreases n - i,
                {
                    let ghost pre = *self;
                    let key = &entries[i].0;
                    let mut np: String;
                    if path.as_str().is_empty() {
                        np = key.clone();
                    } else {
                        np = path.clone();
                        np.append(".");
                        np.append(key.as_str());
                    }
                    proof {
                        reveal_strlit(".");
                        assert(np@ =~= join_path(path@, entries@[i as int].0@));
                    }
                    let ghost head = obs(entries@[i as int].1, np@, ind_marker());
                    let ghost tail = obs_entries(entries@.skip(i as int + 1), path@, ind_marker());
                    proof {
                        assert(entries@.skip(i as int)[0] == entries@[i as int]);
                        assert(entries@.skip(i as int).skip(1) =~= entries@.skip(i as int + 1));
                        assert(obs_entries(entries@.skip(i as int), path@, ind_marker()) == head
                            + tail);
                        lemma_ind_fold_app(pre.tbl(), pre.vals(), head, tail);
                        lemma_doc_entries_size_elem(entries@, i as int);
                        assert(doc_size(*d) == 1 + doc_entries_size(entries@));
                    }
                    self.collect_values(&np, &entries[i].1);
                    i += 1;
                }
                proof {
                    assert(obs_entries(entries@.skip(n as int), path@, ind_marker()).len() == 0);
                }
            },
        }
    }
}


/// The array marker used by the functional-dependency collector.
pub open spec fn fd_marker() -> Seq<char> {
    "[]"@
}

/// Number of leaf observations a document yields: its non-null scalars with
/// non-empty text.  The count does not depend on the root path or marker.
pub open spec fn leaf_count(d: Doc) -> nat
    decreases d,
{
    match d {
        Doc::Null => 0,
        Doc::Scalar(s) => if s@.len() == 0 {
            0
        } else {
            1
        },
        Doc::Array(elems) => leaf_count_list(elems@),
        Doc::Object(entries) => leaf_count_entries(entries@),
    }
}

/// Leaf count of a sequence of array elements.
pub open spec fn leaf_count_list(elems: Seq<Doc>) -> nat
    decreases elems,
{
    if elems.len() == 0 {
        0
    } else {
        leaf_count(elems[0]) + leaf_count_list(elems.skip(1))
    }
}

/// Leaf count of a sequence of object entries.
pub open spec fn leaf_count_entries(entries: Seq<(String, Doc)>) -> nat
    decreases entries,
{
    if entries.len() == 0 {
        0
    } else {
        leaf_count(entries[0].1) + leaf_count_entries(entries.skip(1))
    }
}

/// A document's observation sequence is exactly as long as its leaf count,
/// whatever the root path and marker.
pub proof fn lemma_obs_len(d: Doc, path: Seq<char>, marker: Seq<char>)
    ensures
        obs(d, path, marker).len() == leaf_count(d),
    decreases doc_size(d), 0nat,
{
    match d {
        Doc::Null => {},
        Doc::Scalar(_) => {},
        Doc::Array(elems) => {
            lemma_obs_len_list(elems@, path + marker, marker);
        },
        Doc::Object(entries) => {
            lemma_obs_len_entries(entries@, path, marker);
        },
    }
}

proof fn lemma_obs_len_list(elems: Seq<Doc>, path: Seq<char>, marker: Seq<char>)
    ensures
        obs_list(elems, path, marker).len() == leaf_count_list(elems),
    decreases doc_list_size(elems), elems.len(),
{
    if elems.len() != 0 {
        lemma_obs_len(elems[0], path, marker);
        lemma_obs_len_list(elems.skip(1), path, marker);
    }
}

proof fn lemma_obs_len_entries(entries: Seq<(String, Doc)>, path: Seq<char>, marker: Seq<char>)
    ensures
        obs_entries(entries, path, marker).len() == leaf_count_entries(entries),
    decreases doc_entries_size(entries), entries.len(),
{
    if entries.len() != 0 {
        lemma_obs_len(entries[0].1, join_path(path, entries[0].0@), marker);
        lemma_obs_len_entries(entries.skip(1), path, marker);
    }
}

/// Count the leaf observations of a document; `None` when the count does
/// not fit a machine word.
pub fn count_leaves(d: &Doc) -> (r: Option<usize>)
    ensures
        r matches Some(c) ==> c == leaf_count(*d),
        r is None ==> leaf_count(*d) > usize::MAX,
    decreases doc_size(*d),
{
    match d {
        Doc::Null => Some(0),
        Doc::Scalar(s) => {
            if s.as_str().is_empty() {
                Some(0)
            } else {
                Some(1)
            }
        },
        Doc::Array(elems) => {
            let mut total: usize = 0;
            proof {
                assert(elems@.skip(0) =~= elems@);
            }
            let n = elems.len();
            let mut i: usize = 0;
            while i < n
                invariant
                    *d == Doc::Array(*elems),
                    n == elems@.len(),
                    i <= n,
                    total + leaf_count_list(elems@.skip(i as int)) == leaf_count_list(elems@),
                decreases n - i,
            {
                proof {
                    assert(elems@.skip(i as int)[0] == elems@[i as int]);
                    assert(elems@.skip(i as int).skip(1) =~= elems@.skip(i as int + 1));
                    lemma_doc_list_size_elem(elems@, i as int);
                    assert(doc_size(*d) == 1 + doc_list_size(elems@));
                }
                let sub = count_leaves(&elems[i]);
                match sub {
                    None => {
                        return None;
                    },
                    Some(c) => {
                        match total.checked_add(c) {
                            None => {
                                return None;
                            },
                            Some(t) => {
                                total = t;
                            },
                        }
                    },
                }
                i += 1;
            }
            proof {
                assert(leaf_count_list(elems@.skip(n as int)) == 0);
            }
            Some(total)
        },
        Doc::Object(entries) => {
            let mut total: usize = 0;
            proof {
                assert(entries@.skip(0) =~= entries@);
            }
            let n = entries.len();
            let mut i: usize = 0;
            while i < n
                invariant
                    *d == Doc::Object(*entries),
                    n == entries@.len(),
                    i <= n,
                    total + leaf_count_entries(entries@.skip(i as int)) == leaf_count_entries(
                        entries@,
                    ),
                decreases n - i,
            {
                proof {
                    assert(entries@.skip(i as int)[0] == entries@[i as int]);
                    assert(entries@.skip(i as int).skip(1) =~= entries@.skip(i as int + 1));
                    lemma_doc_entries_size_elem(entries@, i as int);
                    assert(doc_size(*d) == 1 + doc_entries_size(entries@));
                }
                let sub = count_leaves(&entries[i].1);
                match sub {
                    None => {
                        return None;
                    },
                    Some(c) => {
                        match total.checked_add(c) {
                            None => {
                                return None;
                            },
                            Some(t) => {
                                total = t;
                            },
                        }
                    },
                }
                i += 1;
            }
            proof {
                assert(leaf_count_entries(entries@.skip(n as int)) == 0);
            }
            Some(total)
        },
    }
}

} // verus!
