//! Flattening of hierarchical documents into flat records.
//!
//! A flat record maps string paths to leaf values.  Objects form the
//! Cartesian product of their entries' record sets, arrays the union of
//! their elements' record sets (each element rooted at `path + "[*]"`), and
//! empty objects and arrays leave a single record holding the empty-string
//! sentinel.  Merging gives later keys precedence; within one record each
//! path occurs once.

use vstd::prelude::*;

use crate::doc::{
    clone_leaf, doc_entries_size, doc_list_size, doc_size, is_leaf, join_path,
    lemma_doc_entries_size_elem, lemma_doc_list_size_elem, Doc,
};
use crate::intern::string_eq;

verus! {

/// A leaf value carried by a flat record: null, or a scalar's text.
pub open spec fn leaf_view(d: Doc) -> Option<Seq<char>> {
    match d {
        Doc::Scalar(s) => Some(s@),
        _ => None,
    }
}

/// One flat record: an ordered list of `(path, leaf)` pairs.
pub type FlatRec = Vec<(String, Doc)>;

/// The model of a record's entry list.
pub open spec fn rec_entries_view(entries: Seq<(String, Doc)>) -> Seq<
    (Seq<char>, Option<Seq<char>>),
> {
    entries.map_values(|p: (String, Doc)| (p.0@, leaf_view(p.1)))
}

/// The model of one flat record.
pub open spec fn rec_view(r: FlatRec) -> Seq<(Seq<char>, Option<Seq<char>>)> {
    rec_entries_view(r@)
}

/// The model of a sequence of flat records.
pub open spec fn recs_view(rs: Seq<FlatRec>) -> Seq<Seq<(Seq<char>, Option<Seq<char>>)>> {
    rs.map_values(|r: FlatRec| rec_view(r))
}

/// Store `(k, v)` in a record: the first pair keyed `k` is overwritten;
/// otherwise the pair is appended.
pub open spec fn rec_set(
    r: Seq<(Seq<char>, Option<Seq<char>>)>,
    k: Seq<char>,
    v: Option<Seq<char>>,
) -> Seq<(Seq<char>, Option<Seq<char>>)>
    decreases r.len(),
{
    if r.len() == 0 {
        seq![(k, v)]
    } else if r[0].0 == k {
        seq![(k, v)] + r.skip(1)
    } else {
        seq![r[0]] + rec_set(r.skip(1), k, v)
    }
}

/// Merge `b` into `a`, later keys overriding earlier ones.
pub open spec fn rec_merge(
    a: Seq<(Seq<char>, Option<Seq<char>>)>,
    b: Seq<(Seq<char>, Option<Seq<char>>)>,
) -> Seq<(Seq<char>, Option<Seq<char>>)>
    decreases b.len(),
{
    if b.len() == 0 {
        a
    } else {
        rec_merge(rec_set(a, b[0].0, b[0].1), b.skip(1))
    }
}

/// All merges of one record of `acc` with one record of `f`, in row-major
/// order.
pub open spec fn prod_merge(
    acc: Seq<Seq<(Seq<char>, Option<Seq<char>>)>>,
    f: Seq<Seq<(Seq<char>, Option<Seq<char>>)>>,
) -> Seq<Seq<(Seq<char>, Option<Seq<char>>)>>
    decreases acc.len(),
{
    if acc.len() == 0 {
        Seq::empty()
    } else {
        f.map_values(|r: Seq<(Seq<char>, Option<Seq<char>>)>| rec_merge(acc[0], r)) + prod_merge(
            acc.skip(1),
            f,
        )
    }
}

/// The flat records of a document rooted at `path`.
pub open spec fn flatten_spec(d: Doc, path: Seq<char>) -> Seq<
    Seq<(Seq<char>, Option<Seq<char>>)>,
>
    decreases doc_size(d), 0nat,
{
    match d {
        Doc::Null => seq![seq![(path, None::<Seq<char>>)]],
        Doc::Scalar(s) => seq![seq![(path, Some(s@))]],
        Doc::Array(elems) => if elems@.len() == 0 {
            seq![seq![(path, Some(Seq::<char>::empty()))]]
        } else {
            flatten_list(elems@, path + "[*]"@)
        },
        Doc::Object(entries) => if entries@.len() == 0 {
            seq![seq![(path, Some(Seq::<char>::empty()))]]
        } else {
            flatten_entries(seq![Seq::<(Seq<char>, Option<Seq<char>>)>::empty()], entries@, path)
        },
    }
}

/// Union of the flat records of the elements of an array.
pub open spec fn flatten_list(elems: Seq<Doc>, path: Seq<char>) -> Seq<
    Seq<(Seq<char>, Option<Seq<char>>)>,
>
    decreases doc_list_size(elems), elems.len(),
{
    if elems.len() == 0 {
        Seq::empty()
    } else {
        flatten_spec(elems[0], path) + flatten_list(elems.skip(1), path)
    }
}

/// Fold of the Cartesian product over an object's entries.
pub open spec fn flatten_entries(
    acc: Seq<Seq<(Seq<char>, Option<Seq<char>>)>>,
    entries: Seq<(String, Doc)>,
    path: Seq<char>,
) -> Seq<Seq<(Seq<char>, Option<Seq<char>>)>>
    decreases doc_entries_size(entries), entries.len(),
{
    if entries.len() == 0 {
        acc
    } else {
        flatten_entries(
            prod_merge(acc, flatten_spec(entries[0].1, join_path(path, entries[0].0@))),
            entries.skip(1),
            path,
        )
    }
}

/// Store one pair in a record, overwriting the first pair with its key.
fn rec_set_exec(r: &mut FlatRec, k: &String, v: &Doc)
    requires
        is_leaf(*v),
        forall|j: int| 0 <= j < old(r)@.len() ==> is_leaf(old(r)@[j].1),
    ensures
        rec_view(*final(r)) == rec_set(rec_view(*old(r)), k@, leaf_view(*v)),
        forall|j: int| 0 <= j < final(r)@.len() ==> is_leaf(final(r)@[j].1),
{
    let n = r.len();
    let mut i: usize = 0;
    while i < n
        invariant
            n == rec_view(*r).len(),
            i <= n,
            is_leaf(*v),
            forall|j: int| 0 <= j < r@.len() ==> is_leaf(r@[j].1),
            forall|j: int| 0 <= j < i ==> rec_view(*r)[j].0 != k@,
            *r == *old(r),
        decreases n - i,
    {
        if string_eq(&r[i].0, k) {
            proof {
                lemma_rec_set(rec_view(*r), k@, leaf_view(*v));
            }
            let e = &mut r[i];
            e.0 = k.clone();
            e.1 = clone_leaf(v);
            proof {
                assert(rec_view(*r) =~= rec_view(*old(r)).update(i as int, (k@, leaf_view(*v))));
            }
            return ;
        }
        i += 1;
    }
    proof {
        lemma_rec_set(rec_view(*r), k@, leaf_view(*v));
    }
    r.push((k.clone(), clone_leaf(v)));
    proof {
        assert(rec_view(*r) =~= rec_view(*old(r)).push((k@, leaf_view(*v))));
    }
}

/// `rec_set` either updates the first pair with the key or appends.
proof fn lemma_rec_set(r: Seq<(Seq<char>, Option<Seq<char>>)>, k: Seq<char>, v: Option<Seq<char>>)
    ensures
        forall|i: int|
            0 <= i < r.len() && r[i].0 == k && (forall|j: int| 0 <= j < i ==> r[j].0 != k)
                ==> rec_set(r, k, v) =~= r.update(i, (k, v)),
        (forall|j: int| 0 <= j < r.len() ==> r[j].0 != k) ==> rec_set(r, k, v) =~= r.push((k, v)),
    decreases r.len(),
{
    if r.len() != 0 {
        lemma_rec_set(r.skip(1), k, v);
        assert forall|i: int|
            0 <= i < r.len() && r[i].0 == k && (forall|j: int| 0 <= j < i ==> r[j].0 != k) implies
            rec_set(r, k, v) =~= r.update(i, (k, v)) by {
            if i > 0 {
                assert(forall|j: int| 0 <= j < i - 1 ==> r.skip(1)[j].0 != k);
                assert(r.skip(1)[i - 1].0 == k);
                assert(rec_set(r.skip(1), k, v) =~= r.skip(1).update(i - 1, (k, v)));
            }
        }
        if forall|j: int| 0 <= j < r.len() ==> r[j].0 != k {
            assert(forall|j: int| 0 <= j < r.skip(1).len() ==> r.skip(1)[j].0 != k);
        }
    }
}

/// Merge the pairs of `b` into `a`, later keys overriding earlier ones.
fn rec_merge_exec(a: &mut FlatRec, b: &FlatRec)
    requires
        forall|j: int| 0 <= j < old(a)@.len() ==> is_leaf(old(a)@[j].1),
        forall|j: int| 0 <= j < b@.len() ==> is_leaf(b@[j].1),
    ensures
        rec_view(*final(a)) == rec_merge(rec_view(*old(a)), rec_view(*b)),
        forall|j: int| 0 <= j < final(a)@.len() ==> is_leaf(final(a)@[j].1),
{
    proof {
        assert(rec_view(*b).skip(0) =~= rec_view(*b));
    }
    let n = b.len();
    let mut i: usize = 0;
    while i < n
        invariant
            n == b@.len(),
            i <= n,
            forall|j: int| 0 <= j < b@.len() ==> is_leaf(b@[j].1),
            forall|j: int| 0 <= j < a@.len() ==> is_leaf(a@[j].1),
            rec_merge(rec_view(*old(a)), rec_view(*b)) == rec_merge(
                rec_view(*a),
                rec_view(*b).skip(i as int),
            ),
        decreases n - i,
    {
        proof {
            assert(rec_view(*b).skip(i as int)[0] == rec_view(*b)[i as int]);
            assert(rec_view(*b).skip(i as int).skip(1) =~= rec_view(*b).skip(i as int + 1));
        }
        rec_set_exec(a, &b[i].0, &b[i].1);
        i += 1;
    }
    proof {
        assert(rec_view(*b).skip(n as int) =~= Seq::<(Seq<char>, Option<Seq<char>>)>::empty());
    }
}

/// Whether every record of a list holds only leaf values.
pub open spec fn all_leaves(rs: Seq<FlatRec>) -> bool {
    forall|k: int, j: int|
        0 <= k < rs.len() && 0 <= j < rs[k]@.len() ==> is_leaf(#[trigger] rs[k]@[j].1)
}

/// Row-major Cartesian product of two record lists, merged pairwise.
fn prod_merge_exec(acc: &Vec<FlatRec>, f: &Vec<FlatRec>) -> (r: Vec<FlatRec>)
    requires
        all_leaves(acc@),
        all_leaves(f@),
    ensures
        recs_view(r@) == prod_merge(recs_view(acc@), recs_view(f@)),
        all_leaves(r@),
{
    let mut r: Vec<FlatRec> = Vec::new();
    proof {
        assert(recs_view(acc@).skip(0) =~= recs_view(acc@));
        assert(recs_view(r@) =~= Seq::<Seq<(Seq<char>, Option<Seq<char>>)>>::empty());
    }
    let na = acc.len();
    let mut i: usize = 0;
    while i < na
        invariant
            na == acc@.len(),
            i <= na,
            all_leaves(acc@),
            all_leaves(f@),
            all_leaves(r@),
            prod_merge(recs_view(acc@), recs_view(f@)) == recs_view(r@) + prod_merge(
                recs_view(acc@).skip(i as int),
                recs_view(f@),
            ),
        decreases na - i,
    {
        let nf = f.len();
        let mut j: usize = 0;
        let ghost base = recs_view(r@);
        let ghost row = recs_view(f@).map_values(
            |x: Seq<(Seq<char>, Option<Seq<char>>)>| rec_merge(recs_view(acc@)[i as int], x),
        );
        while j < nf
            invariant
                na == acc@.len(),
                nf == f@.len(),
                i < na,
                j <= nf,
                all_leaves(acc@),
                all_leaves(f@),
                all_leaves(r@),
                row == recs_view(f@).map_values(
                    |x: Seq<(Seq<char>, Option<Seq<char>>)>| rec_merge(
                        recs_view(acc@)[i as int],
                        x,
                    ),
                ),
                recs_view(r@) =~= base + row.take(j as int),
            decreases nf - j,
        {
            let mut m: FlatRec = Vec::new();
            let ghost acc_i = recs_view(acc@)[i as int];
            rec_merge_copy(&mut m, &acc[i]);
            rec_merge_exec(&mut m, &f[j]);
            let ghost prev = recs_view(r@);
            r.push(m);
            proof {
                assert(rec_view(m) == rec_merge(acc_i, rec_view(f@[j as int])));
                assert(row[j as int] == rec_view(m));
                assert(recs_view(r@) =~= prev.push(rec_view(m)));
                assert(row.take(j as int + 1) =~= row.take(j as int).push(row[j as int]));
                assert(base + row.take(j as int + 1) =~= (base + row.take(j as int)).push(
                    row[j as int],
                ));
                assert(recs_view(r@) =~= base + row.take(j as int + 1));
            }
            j += 1;
        }
        proof {
            assert(row.take(nf as int) =~= row);
            assert(recs_view(acc@).skip(i as int)[0] == recs_view(acc@)[i as int]);
            assert(recs_view(acc@).skip(i as int).skip(1) =~= recs_view(acc@).skip(i as int + 1));
            assert(prod_merge(recs_view(acc@).skip(i as int), recs_view(f@)) == row + prod_merge(
                recs_view(acc@).skip(i as int + 1),
                recs_view(f@),
            ));
        }
        i += 1;
    }
    proof {
        assert(recs_view(acc@).skip(na as int) =~= Seq::<
            Seq<(Seq<char>, Option<Seq<char>>)>,
        >::empty());
        assert(recs_view(r@) + prod_merge(recs_view(acc@).skip(na as int), recs_view(f@))
            =~= recs_view(r@));
    }
    r
}

/// Flatten a document rooted at `path` into its list of flat records.
pub fn flatten_with_path(d: &Doc, path: &String) -> (r: Vec<FlatRec>)
    ensures
        recs_view(r@) == flatten_spec(*d, path@),
        all_leaves(r@),
    decreases doc_size(*d),
{
    match d {
        Doc::Null => {
            let mut rec: FlatRec = Vec::new();
            rec.push((path.clone(), Doc::Null));
            let mut out: Vec<FlatRec> = Vec::new();
            out.push(rec);
            proof {
                assert(rec_view(rec) =~= seq![(path@, None::<Seq<char>>)]);
                assert(recs_view(out@) =~= flatten_spec(*d, path@));
            }
            out
        },
        Doc::Scalar(s) => {
            let mut rec: FlatRec = Vec::new();
            rec.push((path.clone(), Doc::Scalar(s.clone())));
            let mut out: Vec<FlatRec> = Vec::new();
            out.push(rec);
            proof {
                assert(rec_view(rec) =~= seq![(path@, Some(s@))]);
                assert(recs_view(out@) =~= flatten_spec(*d, path@));
            }
            out
        },
        Doc::Array(elems) => {
            if elems.len() == 0 {
                let mut rec: FlatRec = Vec::new();
                rec.push((path.clone(), Doc::Scalar(String::new())));
                let mut out: Vec<FlatRec> = Vec::new();
                out.push(rec);
                proof {
                    assert(rec_view(rec) =~= seq![(path@, Some(Seq::<char>::empty()))]);
                    assert(recs_view(out@) =~= flatten_spec(*d, path@));
                }
                out
            } else {
                let mut ap = path.clone();
                ap.append("[*]");
                proof {
                    assert(ap@ == path@ + "[*]"@);
                }
                let mut out: Vec<FlatRec> = Vec::new();
                proof {
                    assert(elems@.skip(0) =~= elems@);
                    assert(recs_view(out@) =~= Seq::<
                        Seq<(Seq<char>, Option<Seq<char>>)>,
                    >::empty());
                }
                let n = elems.len();
                let mut i: usize = 0;
                while i < n
                    invariant
                        *d == Doc::Array(*elems),
                        n == elems@.len(),
                        i <= n,
                        ap@ == path@ + "[*]"@,
                        all_leaves(out@),
                        flatten_list(elems@, ap@) == recs_view(out@) + flatten_list(
                            elems@.skip(i as int),
                            ap@,
                        ),
                    decreases n - i,
                {
                    proof {
                        assert(elems@.skip(i as int)[0] == elems@[i as int]);
                        assert(elems@.skip(i as int).skip(1) =~= elems@.skip(i as int + 1));
                        lemma_doc_list_size_elem(elems@, i as int);
                        assert(doc_size(*d) == 1 + doc_list_size(elems@));
                    }
                    let ghost out0 = recs_view(out@);
                    let mut sub = flatten_with_path(&elems[i], &ap);
                    let ghost subv = recs_view(sub@);
                    out.append(&mut sub);
                    proof {
                        assert(recs_view(out@) =~= out0 + subv);
                        assert(recs_view(out@) + flatten_list(elems@.skip(i as int + 1), ap@)
                            =~= (out0 + (subv + flatten_list(elems@.skip(i as int + 1), ap@))));
                    }
                    i += 1;
                }
                proof {
                    assert(flatten_list(elems@.skip(n as int), ap@) =~= Seq::<
                        Seq<(Seq<char>, Option<Seq<char>>)>,
                    >::empty());
                    assert(recs_view(out@) + flatten_list(elems@.skip(n as int), ap@) =~= recs_view(
                        out@,
                    ));
                }
                out
            }
        },
        Doc::Object(entries) => {
            if entries.len() == 0 {
                let mut rec: FlatRec = Vec::new();
                rec.push((path.clone(), Doc::Scalar(String::new())));
                let mut out: Vec<FlatRec> = Vec::new();
                out.push(rec);
                proof {
                    assert(rec_view(rec) =~= seq![(path@, Some(Seq::<char>::empty()))]);
                    assert(recs_view(out@) =~= flatten_spec(*d, path@));
                }
                out
            } else {
                let mut acc: Vec<FlatRec> = Vec::new();
                acc.push(Vec::new());
                proof {
                    assert(recs_view(acc@) =~~= seq![
                        Seq::<(Seq<char>, Option<Seq<char>>)>::empty(),
                    ]);
                    assert(entries@.skip(0) =~= entries@);
                }
                let n = entries.len();
                let mut i: usize = 0;
                while i < n
                    invariant
                        *d == Doc::Object(*entries),
                        n == entries@.len(),
                        i <= n,
                        all_leaves(acc@),
                        flatten_entries(
                            seq![Seq::<(Seq<char>, Option<Seq<char>>)>::empty()],
                            entries@,
                            path@,
                        ) == flatten_entries(recs_view(acc@), entries@.skip(i as int), path@),
                    decreases n - i,
                {
                    proof {
                        assert(entries@.skip(i as int)[0] == entries@[i as int]);
                        assert(entries@.skip(i as int).skip(1) =~= entries@.skip(i as int + 1));
                        lemma_doc_entries_size_elem(entries@, i as int);
                        assert(doc_size(*d) == 1 + doc_entries_size(entries@));
                    }
                    let key = &entries[i].0;
                    let mut np: String;
                    if path.as_str().is_empty() {
                        np = key.clone();
                    } else {
                        np = path.clone();
                        np.append(".");
                        np.append(key.as_str());
                    }
                    proof {
                        reveal_strlit(".");
                        assert(np@ =~= join_path(path@, entries@[i as int].0@));
                    }
                    let sub = flatten_with_path(&entries[i].1, &np);
                    acc = prod_merge_exec(&acc, &sub);
                    i += 1;
                }
                proof {
                    assert(entries@.skip(n as int).len() == 0);
                    assert(flatten_entries(recs_view(acc@), entries@.skip(n as int), path@)
                        == recs_view(acc@));
                }
                acc
            }
        },
    }
}

/// Flatten a document: each flat record wrapped back up as a one-level
/// object document.
pub fn flatten_json(d: &Doc) -> (r: Vec<Doc>)
    ensures
        r@.len() == flatten_spec(*d, Seq::<char>::empty()).len(),
        forall|k: int|
            0 <= k < r@.len() ==> ((#[trigger] r@[k]) matches Doc::Object(rec) && rec_view(rec)
                == flatten_spec(*d, Seq::<char>::empty())[k] && (forall|j: int|
                0 <= j < rec@.len() ==> is_leaf((#[trigger] rec@[j]).1))),
{
    let empty_path = String::new();
    let recs = flatten_with_path(d, &empty_path);
    let ghost specs = flatten_spec(*d, Seq::<char>::empty());
    let mut out: Vec<Doc> = Vec::new();
    let n = recs.len();
    let mut i: usize = 0;
    while i < n
        invariant
            n == recs@.len(),
            i <= n,
            all_leaves(recs@),
            recs_view(recs@) == specs,
            out@.len() == i,
            forall|k: int|
                0 <= k < i ==> ((#[trigger] out@[k]) matches Doc::Object(rec) && rec_view(rec)
                    == specs[k] && (forall|j: int|
                    0 <= j < rec@.len() ==> is_leaf((#[trigger] rec@[j]).1))),
        decreases n - i,
    {
        let mut rec: FlatRec = Vec::new();
        rec_merge_copy(&mut rec, &recs[i]);
        out.push(Doc::Object(rec));
        i += 1;
    }
    out
}

/// The Cartesian product of record lists multiplies their sizes.
pub proof fn lemma_prod_merge_len(
    acc: Seq<Seq<(Seq<char>, Option<Seq<char>>)>>,
    f: Seq<Seq<(Seq<char>, Option<Seq<char>>)>>,
)
    ensures
        prod_merge(acc, f).len() == acc.len() * f.len(),
    decreases acc.len(),
{
    if acc.len() == 0 {
        assert(acc.len() * f.len() == 0) by (nonlinear_arith)
            requires
                acc.len() == 0,
        ;
    } else {
        lemma_prod_merge_len(acc.skip(1), f);
        assert(f.len() + (acc.len() - 1) * f.len() == acc.len() * f.len()) by (nonlinear_arith);
    }
}

/// Cartesian law of the flattener: a two-entry object produces exactly the
/// product of its entries' record counts.
pub proof fn lemma_flatten_cartesian(d: Doc, path: Seq<char>)
    requires
        d is Object,
        d->Object_0@.len() == 2,
    ensures
        flatten_spec(d, path).len() == flatten_spec(
            d->Object_0@[0].1,
            join_path(path, d->Object_0@[0].0@),
        ).len() * flatten_spec(d->Object_0@[1].1, join_path(path, d->Object_0@[1].0@)).len(),
{
    let entries = d->Object_0@;
    let f1 = flatten_spec(entries[0].1, join_path(path, entries[0].0@));
    let f2 = flatten_spec(entries[1].1, join_path(path, entries[1].0@));
    let acc0 = seq![Seq::<(Seq<char>, Option<Seq<char>>)>::empty()];
    assert(entries.skip(1)[0] == entries[1]);
    assert(entries.skip(1).skip(1) =~= entries.skip(2));
    assert(entries.skip(2).len() == 0);
    assert(flatten_spec(d, path) == flatten_entries(acc0, entries, path));
    assert(flatten_entries(acc0, entries, path) == flatten_entries(
        prod_merge(acc0, f1),
        entries.skip(1),
        path,
    ));
    assert(flatten_entries(prod_merge(acc0, f1), entries.skip(1), path) == flatten_entries(
        prod_merge(prod_merge(acc0, f1), f2),
        entries.skip(2),
        path,
    ));
    assert(flatten_entries(prod_merge(prod_merge(acc0, f1), f2), entries.skip(2), path)
        == prod_merge(prod_merge(acc0, f1), f2));
    lemma_prod_merge_len(acc0, f1);
    lemma_prod_merge_len(prod_merge(acc0, f1), f2);
    assert(prod_merge(prod_merge(acc0, f1), f2).len() == (1 * f1.len()) * f2.len());
    assert((1 * f1.len()) * f2.len() == f1.len() * f2.len()) by (nonlinear_arith);
}

/// A list of leaf documents flattens to one record per element.
proof fn lemma_flatten_list_leaves(elems: Seq<Doc>, path: Seq<char>)
    requires
        forall|k: int| 0 <= k < elems.len() ==> is_leaf(#[trigger] elems[k]),
    ensures
        flatten_list(elems, path).len() == elems.len(),
    decreases elems.len(),
{
    if elems.len() != 0 {
        assert(is_leaf(elems[0]));
        assert(flatten_spec(elems[0], path).len() == 1);
        assert(forall|k: int|
            0 <= k < elems.skip(1).len() ==> is_leaf(#[trigger] elems.skip(1)[k]));
        lemma_flatten_list_leaves(elems.skip(1), path);
    }
}

/// A non-empty array of leaf elements flattens to one record per element.
pub proof fn lemma_flatten_array_len(d: Doc, path: Seq<char>)
    requires
        d is Array,
        d->Array_0@.len() > 0,
        forall|k: int| 0 <= k < d->Array_0@.len() ==> is_leaf(#[trigger] d->Array_0@[k]),
    ensures
        flatten_spec(d, path).len() == d->Array_0@.len(),
{
    lemma_flatten_list_leaves(d->Array_0@, path + "[*]"@);
}

/// Copy the pairs of `src` into the empty record `dst`.
fn rec_merge_copy(dst: &mut FlatRec, src: &FlatRec)
    requires
        old(dst)@.len() == 0,
        forall|j: int| 0 <= j < src@.len() ==> is_leaf(src@[j].1),
    ensures
        rec_view(*final(dst)) == rec_view(*src),
        forall|j: int| 0 <= j < final(dst)@.len() ==> is_leaf(final(dst)@[j].1),
{
    let n = src.len();
    let mut i: usize = 0;
    while i < n
        invariant
            n == src@.len(),
            i <= n,
            forall|j: int| 0 <= j < src@.len() ==> is_leaf(src@[j].1),
            forall|j: int| 0 <= j < dst@.len() ==> is_leaf(dst@[j].1),
            rec_view(*dst) =~= rec_view(*src).take(i as int),
        decreases n - i,
    {
        let ghost prev = rec_view(*dst);
        dst.push((src[i].0.clone(), clone_leaf(&src[i].1)));
        proof {
            assert(rec_view(*dst) =~= prev.push(rec_view(*src)[i as int]));
            assert(rec_view(*src).take(i as int + 1) =~= rec_view(*src).take(i as int).push(
                rec_view(*src)[i as int],
            ));
            assert(rec_view(*dst) =~= rec_view(*src).take(i as int + 1));
        }
        i += 1;
    }
    proof {
        assert(rec_view(*src).take(n as int) =~= rec_view(*src));
    }
}

} // verus!
