//! Value collection for functional-dependency discovery.
//!
//! For each leaf path the collector keeps the partition of documents by
//! value: a map from value index to the bitmap of documents exhibiting that
//! value at the path.  It also tracks the first value seen at the path and
//! whether the path has been constant so far.  Its behaviour is a left fold
//! of `fd_step` over the document's leaf observations.

use vstd::prelude::*;

use crate::bits::{bitmap_model, bm_insert, bm_new};
use crate::collect::{count_leaves, fd_marker, leaf_count, lemma_obs_len};
use crate::doc::{
    doc_entries_size, doc_list_size, doc_size, join_path, lemma_doc_entries_size_elem,
    lemma_doc_list_size_elem, obs, obs_entries, obs_list, Doc,
};
use crate::intern::{intern_index, intern_table, string_eq, Interner};

verus! {

/// The partition record of one leaf path.
#[verifier::ext_equal]
pub struct FdRecM {
    /// The path.
    pub path: Seq<char>,
    /// Per value index, the set of documents exhibiting it at this path.
    pub groups: Seq<(u32, Set<u32>)>,
    /// The first value index observed at this path.
    pub first: u32,
    /// Whether every observation at this path matched the first value.
    pub constant: bool,
}

/// Add `doc` to the group keyed `x`: the first group with that key gains
/// the document; otherwise a fresh group is appended.
pub open spec fn grp_insert(gs: Seq<(u32, Set<u32>)>, x: u32, doc: u32) -> Seq<(u32, Set<u32>)>
    decreases gs.len(),
{
    if gs.len() == 0 {
        seq![(x, Set::<u32>::empty().insert(doc))]
    } else if gs[0].0 == x {
        seq![(gs[0].0, gs[0].1.insert(doc))] + gs.skip(1)
    } else {
        seq![gs[0]] + grp_insert(gs.skip(1), x, doc)
    }
}

/// One observation applied to a path's record: the document joins the
/// value's group, and a differing value clears the constant flag.
pub open spec fn fd_rec_update(r: FdRecM, x: u32, doc: u32) -> FdRecM {
    FdRecM {
        path: r.path,
        groups: grp_insert(r.groups, x, doc),
        first: r.first,
        constant: if r.first != x {
            false
        } else {
            r.constant
        },
    }
}

/// The fresh record of a path first observed with value `x` in `doc`.
pub open spec fn fd_rec_new(p: Seq<char>, x: u32, doc: u32) -> FdRecM {
    FdRecM {
        path: p,
        groups: seq![(x, Set::<u32>::empty().insert(doc))],
        first: x,
        constant: true,
    }
}

/// Record one observation: the first record keyed `p` is updated, or a
/// fresh record appended.
pub open spec fn fd_recs_insert(recs: Seq<FdRecM>, p: Seq<char>, x: u32, doc: u32) -> Seq<FdRecM>
    decreases recs.len(),
{
    if recs.len() == 0 {
        seq![fd_rec_new(p, x, doc)]
    } else if recs[0].path == p {
        seq![fd_rec_update(recs[0], x, doc)] + recs.skip(1)
    } else {
        seq![recs[0]] + fd_recs_insert(recs.skip(1), p, x, doc)
    }
}

/// One leaf observation `(path, text)` of document `doc` applied to the
/// collector state.
pub open spec fn fd_step(
    tbl: Seq<Seq<char>>,
    recs: Seq<FdRecM>,
    doc: u32,
    o: (Seq<char>, Seq<char>),
) -> (Seq<Seq<char>>, Seq<FdRecM>) {
    (intern_table(tbl, o.1), fd_recs_insert(recs, o.0, intern_index(tbl, o.1) as u32, doc))
}

/// Left fold of `fd_step` over a document's leaf observations.
pub open spec fn fd_fold(
    tbl: Seq<Seq<char>>,
    recs: Seq<FdRecM>,
    doc: u32,
    os: Seq<(Seq<char>, Seq<char>)>,
) -> (Seq<Seq<char>>, Seq<FdRecM>)
    decreases os.len(),
{
    if os.len() == 0 {
        (tbl, recs)
    } else {
        let (tbl1, recs1) = fd_step(tbl, recs, doc, os[0]);
        fd_fold(tbl1, recs1, doc, os.skip(1))
    }
}

/// Folding a concatenation folds the two parts in turn.
pub proof fn lemma_fd_fold_app(
    tbl: Seq<Seq<char>>,
    recs: Seq<FdRecM>,
    doc: u32,
    a: Seq<(Seq<char>, Seq<char>)>,
    b: Seq<(Seq<char>, Seq<char>)>,
)
    ensures
        fd_fold(tbl, recs, doc, a + b) == fd_fold(
            fd_fold(tbl, recs, doc, a).0,
            fd_fold(tbl, recs, doc, a).1,
            doc,
            b,
        ),
    decreases a.len(),
{
    if a.len() == 0 {
        assert(a + b =~= b);
    } else {
        let (tbl1, recs1) = fd_step(tbl, recs, doc, a[0]);
        assert((a + b)[0] == a[0]);
        assert((a + b).skip(1) =~= a.skip(1) + b);
        lemma_fd_fold_app(tbl1, recs1, doc, a.skip(1), b);
    }
}

/// The fold adds at most one table entry per observation.
pub proof fn lemma_fd_fold_tbl_len(
    tbl: Seq<Seq<char>>,
    recs: Seq<FdRecM>,
    doc: u32,
    os: Seq<(Seq<char>, Seq<char>)>,
)
    ensures
        fd_fold(tbl, recs, doc, os).0.len() <= tbl.len() + os.len(),
    decreases os.len(),
{
    if os.len() != 0 {
        let (tbl1, recs1) = fd_step(tbl, recs, doc, os[0]);
        lemma_fd_fold_tbl_len(tbl1, recs1, doc, os.skip(1));
    }
}

proof fn lemma_grp_insert_present(gs: Seq<(u32, Set<u32>)>, x: u32, doc: u32, g: int)
    requires
        0 <= g < gs.len(),
        gs[g].0 == x,
        forall|j: int| 0 <= j < g ==> gs[j].0 != x,
    ensures
        grp_insert(gs, x, doc) =~= gs.update(g, (gs[g].0, gs[g].1.insert(doc))),
    decreases g,
{
    if g > 0 {
        lemma_grp_insert_present(gs.skip(1), x, doc, g - 1);
    }
}

proof fn lemma_grp_insert_absent(gs: Seq<(u32, Set<u32>)>, x: u32, doc: u32)
    requires
        forall|j: int| 0 <= j < gs.len() ==> gs[j].0 != x,
    ensures
        grp_insert(gs, x, doc) =~= gs.push((x, Set::<u32>::empty().insert(doc))),
    decreases gs.len(),
{
    if gs.len() != 0 {
        lemma_grp_insert_absent(gs.skip(1), x, doc);
    }
}

proof fn lemma_fd_recs_insert_present(recs: Seq<FdRecM>, p: Seq<char>, x: u32, doc: u32, k: int)
    requires
        0 <= k < recs.len(),
        recs[k].path == p,
        forall|j: int| 0 <= j < k ==> recs[j].path != p,
    ensures
        fd_recs_insert(recs, p, x, doc) =~= recs.update(k, fd_rec_update(recs[k], x, doc)),
    decreases k,
{
    if k > 0 {
        lemma_fd_recs_insert_present(recs.skip(1), p, x, doc, k - 1);
    }
}

proof fn lemma_fd_recs_insert_absent(recs: Seq<FdRecM>, p: Seq<char>, x: u32, doc: u32)
    requires
        forall|j: int| 0 <= j < recs.len() ==> recs[j].path != p,
    ensures
        fd_recs_insert(recs, p, x, doc) =~= recs.push(fd_rec_new(p, x, doc)),
    decreases recs.len(),
{
    if recs.len() != 0 {
        lemma_fd_recs_insert_absent(recs.skip(1), p, x, doc);
    }
}

/// One leaf path's collected partition.
struct FdEntry {
    path: String,
    groups: Vec<(u32, roaring::RoaringBitmap)>,
    first: u32,
    constant: bool,
}

/// Collector state for functional-dependency discovery.
pub struct FdState {
    interner: Interner,
    entries: Vec<FdEntry>,
}

impl FdState {
    /// The interning table: the scalar text of each value index.
    pub closed spec fn tbl(self) -> Seq<Seq<char>> {
        self.interner@
    }

    /// The per-path partition records, in order of first observation.
    pub closed spec fn recs(self) -> Seq<FdRecM> {
        self.entries@.map_values(
            |e: FdEntry| FdRecM {
                path: e.path@,
                groups: e.groups@.map_values(
                    |g: (u32, roaring::RoaringBitmap)| (g.0, bitmap_model(g.1)),
                ),
                first: e.first,
                constant: e.constant,
            },
        )
    }

    /// Table entries distinct, paths distinct, group keys distinct within
    /// each record, document sets finite.
    pub open spec fn wf(self) -> bool {
        &&& (forall|i: int, j: int|
            0 <= i < j < self.tbl().len() ==> self.tbl()[i] != self.tbl()[j])
        &&& (forall|i: int, j: int|
            0 <= i < j < self.recs().len() ==> self.recs()[i].path != self.recs()[j].path)
        &&& (forall|i: int, g1: int, g2: int|
            0 <= i < self.recs().len() && 0 <= g1 < g2 < self.recs()[i].groups.len()
                ==> (#[trigger] self.recs()[i].groups[g1]).0 != (#[trigger]
            self.recs()[i].groups[g2]).0)
        &&& (forall|i: int, g: int|
            0 <= i < self.recs().len() && 0 <= g < self.recs()[i].groups.len() ==> (#[trigger]
            self.recs()[i].groups[g]).1.finite())
    }

    /// An empty collector.
    pub fn new() -> (r: FdState)
        ensures
            r.tbl() == Seq::<Seq<char>>::empty(),
            r.recs() == Seq::<FdRecM>::empty(),
            r.wf(),
    {
        let r = FdState { interner: Interner::new(), entries: Vec::new() };
        proof {
            assert(r.recs() =~= Seq::<FdRecM>::empty());
        }
        r
    }

    /// Number of interned scalar texts.
    pub fn interner_len(&self) -> (r: usize)
        ensures
            r == self.tbl().len(),
    {
        self.interner.len()
    }

    /// Number of recorded paths.
    pub fn rec_count(&self) -> (r: usize)
        ensures
            r == self.recs().len(),
    {
        self.entries.len()
    }

    /// The path of a record.
    pub fn path_at(&self, i: usize) -> (r: &String)
        requires
            i < self.recs().len(),
        ensures
            r@ == self.recs()[i as int].path,
    {
        &self.entries[i].path
    }

    /// Whether a record's path has been constant so far.
    pub fn constant_at(&self, i: usize) -> (r: bool)
        requires
            i < self.recs().len(),
        ensures
            r == self.recs()[i as int].constant,
    {
        self.entries[i].constant
    }

    /// Number of value groups of a record.
    pub fn group_count(&self, i: usize) -> (r: usize)
        requires
            i < self.recs().len(),
        ensures
            r == self.recs()[i as int].groups.len(),
    {
        self.entries[i].groups.len()
    }

    /// The value index of one group.
    pub fn group_key_at(&self, i: usize, g: usize) -> (r: u32)
        requires
            i < self.recs().len(),
            g < self.recs()[i as int].groups.len(),
        ensures
            r == self.recs()[i as int].groups[g as int].0,
    {
        self.entries[i].groups[g].0
    }

    /// The documents of one group.
    pub fn group_docs_at(&self, i: usize, g: usize) -> (r: &roaring::RoaringBitmap)
        requires
            i < self.recs().len(),
            g < self.recs()[i as int].groups.len(),
        ensures
            bitmap_model(*r) == self.recs()[i as int].groups[g as int].1,
    {
        &self.entries[i].groups[g].1
    }

    /// Index of the first record keyed by `path`, if any.
    pub fn find_rec(&self, path: &String) -> (r: Option<usize>)
        ensures
            match r {
                Some(k) => k < self.recs().len() && self.recs()[k as int].path == path@ && forall|
                    j: int,
                |
                    0 <= j < k ==> self.recs()[j].path != path@,
                None => forall|j: int| 0 <= j < self.recs().len() ==> self.recs()[j].path != path@,
            },
    {
        let n = self.entries.len();
        let mut k: usize = 0;
        while k < n
            invariant
                n == self.recs().len(),
                k <= n,
                forall|j: int| 0 <= j < k ==> self.recs()[j].path != path@,
            decreases n - k,
        {
            if string_eq(&self.entries[k].path, path) {
                return Some(k);
            }
            k += 1;
        }
        None
    }

    /// Index of the first group of record `k` keyed by value `x`, if any.
    fn find_group(&self, k: usize, x: u32) -> (r: Option<usize>)
        requires
            k < self.recs().len(),
        ensures
            match r {
                Some(g) => g < self.recs()[k as int].groups.len() && self.recs()[k as int].groups[g
                    as int].0 == x && forall|j: int|
                    0 <= j < g ==> self.recs()[k as int].groups[j].0 != x,
                None => forall|j: int|
                    0 <= j < self.recs()[k as int].groups.len() ==> self.recs()[k
                        as int].groups[j].0 != x,
            },
    {
        let n = self.entries[k].groups.len();
        let mut g: usize = 0;
        while g < n
            invariant
                k < self.recs().len(),
                n == self.recs()[k as int].groups.len(),
                g <= n,
                forall|j: int| 0 <= j < g ==> self.recs()[k as int].groups[j].0 != x,
            decreases n - g,
        {
            if self.entries[k].groups[g].0 == x {
                return Some(g);
            }
            g += 1;
        }
        None
    }

    /// Record one leaf observation of document `doc`.
    fn record(&mut self, doc: u32, path: &String, text: &String)
        requires
            old(self).wf(),
            old(self).tbl().len() < u32::MAX,
        ensures
            final(self).wf(),
            (final(self).tbl(), final(self).recs()) == fd_step(
                old(self).tbl(),
                old(self).recs(),
                doc,
                (path@, text@),
            ),
            final(self).tbl().len() <= old(self).tbl().len() + 1,
    {
        let idx = self.interner.intern(text);
        let x: u32 = idx as u32;
        match self.find_rec(path) {
            Some(k) => {
                proof {
                    lemma_fd_recs_insert_present(self.recs(), path@, x, doc, k as int);
                }
                let ghost oldrec = self.recs()[k as int];
                let gpos = self.find_group(k, x);
                match gpos {
                    Some(g) => {
                        proof {
                            lemma_grp_insert_present(oldrec.groups, x, doc, g as int);
                        }
                        let e = &mut self.entries[k];
                        if e.first != x {
                            e.constant = false;
                        }
                        bm_insert(&mut e.groups[g].1, doc);
                        proof {
                            assert(self.recs()[k as int].groups =~= oldrec.groups.update(
                                g as int,
                                (oldrec.groups[g as int].0, oldrec.groups[g as int].1.insert(doc)),
                            ));
                            assert(self.recs()[k as int] =~~= fd_rec_update(oldrec, x, doc));
                        }
                    },
                    None => {
                        proof {
                            lemma_grp_insert_absent(oldrec.groups, x, doc);
                        }
                        let mut bm = bm_new();
                        bm_insert(&mut bm, doc);
                        let e = &mut self.entries[k];
                        if e.first != x {
                            e.constant = false;
                        }
                        e.groups.push((x, bm));
                        proof {
                            assert(self.recs()[k as int].groups =~= oldrec.groups.push(
                                (x, Set::<u32>::empty().insert(doc)),
                            ));
                            assert(self.recs()[k as int] =~~= fd_rec_update(oldrec, x, doc));
                        }
                    },
                }
                proof {
                    assert(self.recs() =~= old(self).recs().update(
                        k as int,
                        fd_rec_update(oldrec, x, doc),
                    ));
                    assert(self.recs() =~= fd_recs_insert(old(self).recs(), path@, x, doc));
                }
            },
            None => {
                proof {
                    lemma_fd_recs_insert_absent(self.recs(), path@, x, doc);
                }
                let mut bm = bm_new();
                bm_insert(&mut bm, doc);
                let mut groups: Vec<(u32, roaring::RoaringBitmap)> = Vec::new();
                groups.push((x, bm));
                self.entries.push(FdEntry { path: path.clone(), groups, first: x, constant: true });
                proof {
                    let m = old(self).recs().len() as int;
                    assert(self.recs()[m].groups =~= seq![(x, Set::<u32>::empty().insert(doc))]);
                    assert(self.recs()[m] =~~= fd_rec_new(path@, x, doc));
                    assert(self.recs() =~= old(self).recs().push(fd_rec_new(path@, x, doc)));
                    assert(self.recs() =~= fd_recs_insert(old(self).recs(), path@, x, doc));
                }
            },
        }
    }

    /// Feed one whole document into the collector as document `doc`,
    /// guarding the interning bound.  A `false` result leaves the state
    /// unchanged: the interning table would have outgrown the value bitmaps.
    pub fn collect_document(&mut self, doc: u32, d: &Doc) -> (ok: bool)
        requires
            old(self).wf(),
        ensures
            final(self).wf(),
            ok == (old(self).tbl().len() + leaf_count(*d) <= u32::MAX),
            ok ==> (final(self).tbl(), final(self).recs()) == fd_fold(
                old(self).tbl(),
                old(self).recs(),
                doc,
                obs(*d, Seq::<char>::empty(), fd_marker()),
            ),
            !ok ==> *final(self) == *old(self),
    {
        let root = String::new();
        match count_leaves(d) {
            None => false,
            Some(c) => {
                let cap: usize = u32::MAX as usize;
                if self.interner_len() <= cap && c <= cap - self.interner_len() {
                    proof {
                        lemma_obs_len(*d, root@, fd_marker());
                    }
                    self.collect_values(doc, &root, d);
                    true
                } else {
                    false
                }
            },
        }
    }

    /// Traverse a document rooted at `path`, recording every non-null,
    /// non-empty scalar into the partition of its leaf path for `doc`.
    pub fn collect_values(&mut self, doc: u32, path: &String, d: &Doc)
        requires
            old(self).wf(),
            old(self).tbl().len() + obs(*d, path@, fd_marker()).len() <= u32::MAX,
        ensures
            final(self).wf(),
            (final(self).tbl(), final(self).recs()) == fd_fold(
                old(self).tbl(),
                old(self).recs(),
                doc,
                obs(*d, path@, fd_marker()),
            ),
            final(self).tbl().len() <= old(self).tbl().len() + obs(
                *d,
                path@,
                fd_marker(),
            ).len(),
        decreases doc_size(*d),
    {
        match d {
            Doc::Null => {
                proof {
                    assert(obs(*d, path@, fd_marker()) =~= Seq::<(Seq<char>, Seq<char>)>::empty());
                }
            },
            Doc::Scalar(s) => {
                if !s.as_str().is_empty() {
                    self.record(doc, path, s);
                    proof {
                        let os = obs(*d, path@, fd_marker());
                        let stepped = fd_step(old(self).tbl(), old(self).recs(), doc, (path@, s@));
                        assert(os == seq![(path@, s@)]);
                        assert(os[0] == (path@, s@));
                        assert(os.skip(1) =~= Seq::<(Seq<char>, Seq<char>)>::empty());
                        assert(fd_fold(stepped.0, stepped.1, doc, os.skip(1)) == stepped);
                        assert(fd_fold(old(self).tbl(), old(self).recs(), doc, os) == fd_fold(
                            stepped.0,
                            stepped.1,
                            doc,
                            os.skip(1),
                        ));
                    }
                }
            },
            Doc::Array(elems) => {
                let ghost os = obs(*d, path@, fd_marker());
                let mut ap = path.clone();
                ap.append("[]");
                proof {
                    assert(ap@ == path@ + fd_marker());
                    assert(os == obs_list(elems@, ap@, fd_marker()));
                    assert(elems@.skip(0) =~= elems@);
                }
                let ghost st0 = *self;
                let n = elems.len();
                let mut i: usize = 0;
                while i < n
                    invariant
                        *d == Doc::Array(*elems),
                        n == elems@.len(),
                        i <= n,
                        self.wf(),
                        ap@ == path@ + fd_marker(),
                        os == obs_list(elems@, ap@, fd_marker()),
                        self.tbl().len() + obs_list(elems@.skip(i as int), ap@, fd_marker()).len()
                            <= u32::MAX,
                        fd_fold(st0.tbl(), st0.recs(), doc, os) == fd_fold(
                            self.tbl(),
                            self.recs(),
                            doc,
                            obs_list(elems@.skip(i as int), ap@, fd_marker()),
                        ),
                        self.tbl().len() + obs_list(elems@.skip(i as int), ap@, fd_marker()).len()
                            <= st0.tbl().len() + os.len(),
                    decreases n - i,
                {
                    let ghost pre = *self;
                    let ghost head = obs(elems@[i as int], ap@, fd_marker());
                    let ghost tail = obs_list(elems@.skip(i as int + 1), ap@, fd_marker());
                    proof {
                        assert(elems@.skip(i as int)[0] == elems@[i as int]);
                        assert(elems@.skip(i as int).skip(1) =~= elems@.skip(i as int + 1));
                        assert(obs_list(elems@.skip(i as int), ap@, fd_marker()) == head + tail);
                        lemma_fd_fold_app(pre.tbl(), pre.recs(), doc, head, tail);
                        lemma_doc_list_size_elem(elems@, i as int);
                        assert(doc_size(*d) == 1 + doc_list_size(elems@));
                    }
                    self.collect_values(doc, &ap, &elems[i]);
                    i += 1;
                }
                proof {
                    assert(obs_list(elems@.skip(n as int), ap@, fd_marker()).len() == 0);
                }
            },
            Doc::Object(entries) => {
                let ghost os = obs(*d, path@, fd_marker());
                proof {
                    assert(os == obs_entries(entries@, path@, fd_marker()));
                    assert(entries@.skip(0) =~= entries@);
                }
                let ghost st0 = *self;
                let n = entries.len();
                let mut i: usize = 0;
                while i < n
                    invariant
                        *d == Doc::Object(*entries),
                        n == entries@.len(),
                        i <= n,
                        self.wf(),
                        os == obs_entries(entries@, path@, fd_marker()),
                        self.tbl().len() + obs_entries(
                            entries@.skip(i as int),
                            path@,
                            fd_marker(),
                        ).len() <= u32::MAX,
                        fd_fold(st0.tbl(), st0.recs(), doc, os) == fd_fold(
                            self.tbl(),
                            self.recs(),
                            doc,
                            obs_entries(entries@.skip(i as int), path@, fd_marker()),
                        ),
                        self.tbl().len() + obs_entries(
                            entries@.skip(i as int),
                            path@,
                            fd_marker(),
                        ).len() <= st0.tbl().len() + os.len(),
                    decreases n - i,
                {
                    let ghost pre = *self;
                    let key = &entries[i].0;
                    let mut np: String;
                    if path.as_str().is_empty() {
                        np = key.clone();
                    } else {
                        np = path.clone();
                        np.append(".");
                        np.append(key.as_str());
                    }
                    proof {
                        reveal_strlit(".");
                        assert(np@ =~= join_path(path@, entries@[i as int].0@));
                    }
                    let ghost head = obs(entries@[i as int].1, np@, fd_marker());
                    let ghost tail = obs_entries(entries@.skip(i as int + 1), path@, fd_marker());
                    proof {
                        assert(entries@.skip(i as int)[0] == entries@[i as int]);
                        assert(entries@.skip(i as int).skip(1) =~= entries@.skip(i as int + 1));
                        assert(obs_entries(entries@.skip(i as int), path@, fd_marker()) == head
                            + tail);
                        lemma_fd_fold_app(pre.tbl(), pre.recs(), doc, head, tail);
                        lemma_doc_entries_size_elem(entries@, i as int);
                        assert(doc_size(*d) == 1 + doc_entries_size(entries@));
                    }
                    self.collect_values(doc, &np, &entries[i].1);
                    i += 1;
                }
                proof {
                    assert(obs_entries(entries@.skip(n as int), path@, fd_marker()).len() == 0);
                }
            },
        }
    }
}

} // verus!
