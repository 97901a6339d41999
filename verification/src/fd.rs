//! Functional-dependency discovery: a level-wise lattice search over path
//! subsets.
//!
//! A path subset is a strictly increasing vector of path indices.  Each
//! lattice element carries its candidate right-hand sides and a validity
//! flag; a separate map stores the pairwise-agreement bitmap of each subset,
//! a set over triangular pair indices of documents.

use vstd::prelude::*;

use crate::bits::{
    bitmap_model, bm_and, bm_clone, bm_contains, bm_insert, bm_insert_below, bm_is_empty, bm_len,
    bm_new, bm_sorted_values, bm_sub,
};
use crate::fdcollect::FdState;
use crate::pairs::{
    index, lemma_pair_index_below_count, lemma_pair_index_exists, lemma_pair_index_injective,
    mul_u64, pair_count, pair_index_spec, reverse_index,
};

verus! {

/// The largest document count whose final pair index fits the bitmaps.
pub const MAX_FD_DOCS: u32 = 92682;

/// A strictly increasing sequence: the canonical form of a path subset.
pub open spec fn strictly_sorted(s: Seq<u32>) -> bool {
    forall|i: int, j: int| 0 <= i < j < s.len() ==> s[i] < s[j]
}

/// First value bound to `k`, scanning left to right.
pub open spec fn assoc_get<K, V>(s: Seq<(K, V)>, k: K) -> Option<V>
    decreases s.len(),
{
    if s.len() == 0 {
        None
    } else if s[0].0 == k {
        Some(s[0].1)
    } else {
        assoc_get(s.skip(1), k)
    }
}

/// When the first entry keyed `k` stands at `i`, `assoc_get` returns it.
pub proof fn lemma_assoc_get_at<K, V>(s: Seq<(K, V)>, k: K, i: int)
    requires
        0 <= i < s.len(),
        s[i].0 == k,
        forall|j: int| 0 <= j < i ==> s[j].0 != k,
    ensures
        assoc_get(s, k) == Some(s[i].1),
    decreases i,
{
    if i > 0 {
        lemma_assoc_get_at(s.skip(1), k, i - 1);
    }
}

/// With no entry keyed `k`, `assoc_get` returns nothing.
pub proof fn lemma_assoc_get_absent<K, V>(s: Seq<(K, V)>, k: K)
    requires
        forall|j: int| 0 <= j < s.len() ==> s[j].0 != k,
    ensures
        assoc_get(s, k) is None,
    decreases s.len(),
{
    if s.len() != 0 {
        lemma_assoc_get_absent(s.skip(1), k);
    }
}

/// Appending an entry leaves every successful lookup unchanged.
pub proof fn lemma_assoc_get_push<K, V>(s: Seq<(K, V)>, e: (K, V), k: K)
    requires
        assoc_get(s, k) is Some,
    ensures
        assoc_get(s.push(e), k) == assoc_get(s, k),
    decreases s.len(),
{
    if s.len() > 0 {
        assert(s.push(e)[0] == s[0]);
        if s[0].0 != k {
            assert(s.push(e).skip(1) =~= s.skip(1).push(e));
            lemma_assoc_get_push(s.skip(1), e, k);
        }
    }
}

/// Appending an entry makes its own key found when it was absent.
pub proof fn lemma_assoc_get_push_new<K, V>(s: Seq<(K, V)>, e: (K, V), k: K)
    requires
        assoc_get(s, k) is None,
        e.0 == k,
    ensures
        assoc_get(s.push(e), k) == Some(e.1),
    decreases s.len(),
{
    if s.len() > 0 {
        assert(s.push(e)[0] == s[0]);
        assert(s.push(e).skip(1) =~= s.skip(1).push(e));
        lemma_assoc_get_push_new(s.skip(1), e, k);
    } else {
        assert(s.push(e)[0] == e);
        assert(s.push(e).skip(1) =~= Seq::<(K, V)>::empty());
    }
}

/// `x` with every occurrence of `v` dropped, order kept.
pub open spec fn remove_val(x: Seq<u32>, v: u32) -> Seq<u32>
    decreases x.len(),
{
    if x.len() == 0 {
        Seq::empty()
    } else if x[0] == v {
        remove_val(x.skip(1), v)
    } else {
        seq![x[0]] + remove_val(x.skip(1), v)
    }
}

/// Membership and order of `remove_val`.
pub proof fn lemma_remove_val(x: Seq<u32>, v: u32)
    ensures
        forall|w: u32| remove_val(x, v).contains(w) <==> (x.contains(w) && w != v),
        strictly_sorted(x) ==> strictly_sorted(remove_val(x, v)),
        remove_val(x, v).len() <= x.len(),
    decreases x.len(),
{
    if x.len() != 0 {
        lemma_remove_val(x.skip(1), v);
        assert forall|w: u32| x.contains(w) && w != v implies remove_val(x, v).contains(w) by {
            let k = choose|k: int| 0 <= k < x.len() && x[k] == w;
            if k > 0 {
                assert(x.skip(1)[k - 1] == w);
                assert(x.skip(1).contains(w));
            }
            if x[0] != v {
                if k == 0 {
                    assert(remove_val(x, v)[0] == w);
                } else {
                    let r1 = remove_val(x.skip(1), v);
                    let k1 = choose|k1: int| 0 <= k1 < r1.len() && r1[k1] == w;
                    assert((seq![x[0]] + r1)[k1 + 1] == w);
                }
            }
        }
        assert forall|w: u32| remove_val(x, v).contains(w) implies x.contains(w) && w != v by {
            let r = remove_val(x, v);
            let k = choose|k: int| 0 <= k < r.len() && r[k] == w;
            if x[0] == v {
                assert(remove_val(x.skip(1), v).contains(w));
                let k1 = choose|k1: int|
                    0 <= k1 < remove_val(x.skip(1), v).len() && remove_val(x.skip(1), v)[k1] == w;
                assert(x.skip(1).contains(w));
            } else {
                if k == 0 {
                    assert(x[0] == w);
                } else {
                    assert(remove_val(x.skip(1), v)[k - 1] == w);
                    assert(remove_val(x.skip(1), v).contains(w));
                }
            }
            if x.skip(1).contains(w) {
                let k2 = choose|k2: int| 0 <= k2 < x.skip(1).len() && x.skip(1)[k2] == w;
                assert(x[k2 + 1] == w);
            }
        }
        if strictly_sorted(x) {
            assert(forall|i: int, j: int|
                0 <= i < j < x.skip(1).len() ==> x.skip(1)[i] < x.skip(1)[j]);
            assert(strictly_sorted(remove_val(x.skip(1), v)));
            if x[0] != v {
                let r1 = remove_val(x.skip(1), v);
                assert forall|i: int, j: int|
                    0 <= i < j < remove_val(x, v).len() implies remove_val(x, v)[i] < remove_val(
                    x,
                    v,
                )[j] by {
                    if i == 0 {
                        assert(r1[j - 1] == remove_val(x, v)[j]);
                        assert(r1.contains(r1[j - 1]));
                        assert(x.skip(1).contains(r1[j - 1]));
                        let k2 = choose|k2: int|
                            0 <= k2 < x.skip(1).len() && x.skip(1)[k2] == r1[j - 1];
                        assert(x[0] < x[k2 + 1]);
                    }
                }
            }
        }
    }
}

/// Two strictly sorted sequences with the same members are equal.
pub proof fn lemma_sorted_unique(a: Seq<u32>, b: Seq<u32>)
    requires
        strictly_sorted(a),
        strictly_sorted(b),
        forall|v: u32| a.contains(v) <==> b.contains(v),
    ensures
        a == b,
    decreases a.len(),
{
    if a.len() == 0 {
        if b.len() != 0 {
            assert(b.contains(b[0]));
            assert(a.contains(b[0]));
        }
        assert(a =~= b);
    } else {
        assert(a.contains(a[0]));
        assert(b.contains(a[0]));
        assert(b.len() != 0);
        assert(a.contains(b[0]));
        let ka = choose|k: int| 0 <= k < a.len() && a[k] == b[0];
        let kb = choose|k: int| 0 <= k < b.len() && b[k] == a[0];
        assert(a[0] <= a[ka] && b[0] <= b[kb]);
        assert(a[0] == b[0]);
        assert forall|v: u32| a.skip(1).contains(v) <==> b.skip(1).contains(v) by {
            assert forall|s: Seq<u32>, v: u32|
                strictly_sorted(s) && s.len() > 0 implies (s.skip(1).contains(v) <==> (s.contains(
                v,
            ) && v > s[0])) by {
                if s.skip(1).contains(v) {
                    let k = choose|k: int| 0 <= k < s.skip(1).len() && s.skip(1)[k] == v;
                    assert(s[k + 1] == v);
                    assert(s[0] < s[k + 1]);
                }
                if s.contains(v) && v > s[0] {
                    let k = choose|k: int| 0 <= k < s.len() && s[k] == v;
                    assert(k != 0);
                    assert(s.skip(1)[k - 1] == v);
                }
            }
        }
        assert(forall|i: int, j: int| 0 <= i < j < a.skip(1).len() ==> a.skip(1)[i] < a.skip(1)[j]);
        assert(forall|i: int, j: int| 0 <= i < j < b.skip(1).len() ==> b.skip(1)[i] < b.skip(1)[j]);
        lemma_sorted_unique(a.skip(1), b.skip(1));
        assert(a.skip(1).len() == b.skip(1).len());
        assert(a.len() == a.skip(1).len() + 1);
        assert(b.len() == b.skip(1).len() + 1);
        assert(a.len() == b.len());
        assert forall|k: int| 0 <= k < a.len() implies a[k] == b[k] by {
            if k > 0 {
                assert(a.skip(1)[k - 1] == b.skip(1)[k - 1]);
            }
        }
        assert(a =~= b);
    }
}

/// Extending a prefix by one element extends its membership by it.
proof fn lemma_take_succ_contains(s: Seq<u32>, m: int, v: u32)
    requires
        0 <= m < s.len(),
    ensures
        s.take(m + 1).contains(v) <==> (s.take(m).contains(v) || s[m] == v),
{
    if s.take(m + 1).contains(v) {
        let k = choose|k: int| 0 <= k < m + 1 && #[trigger] s.take(m + 1)[k] == v;
        if k < m {
            assert(s.take(m)[k] == v);
        }
    }
    if s.take(m).contains(v) {
        let k = choose|k: int| 0 <= k < m && #[trigger] s.take(m)[k] == v;
        assert(s.take(m + 1)[k] == v);
    }
    if s[m] == v {
        assert(s.take(m + 1)[m] == v);
    }
}

/// Copy a path subset.
pub fn ps_clone(v: &Vec<u32>) -> (r: Vec<u32>)
    ensures
        r@ == v@,
{
    let mut r: Vec<u32> = Vec::new();
    let n = v.len();
    let mut i: usize = 0;
    while i < n
        invariant
            n == v@.len(),
            i <= n,
            r@ == v@.take(i as int),
        decreases n - i,
    {
        r.push(v[i]);
        proof {
            assert(r@ =~= v@.take(i as int + 1));
        }
        i += 1;
    }
    proof {
        assert(v@.take(n as int) =~= v@);
    }
    r
}

/// Whether two path subsets are equal.
pub fn ps_eq(a: &Vec<u32>, b: &Vec<u32>) -> (r: bool)
    ensures
        r == (a@ == b@),
{
    if a.len() != b.len() {
        proof {
            assert(a@ != b@);
        }
        return false;
    }
    let n = a.len();
    let mut i: usize = 0;
    while i < n
        invariant
            n == a@.len() == b@.len(),
            i <= n,
            forall|j: int| 0 <= j < i ==> a@[j] == b@[j],
        decreases n - i,
    {
        if a[i] != b[i] {
            return false;
        }
        i += 1;
    }
    proof {
        assert(a@ =~= b@);
    }
    true
}

/// Whether a path subset holds a value.
pub fn ps_contains(s: &Vec<u32>, v: u32) -> (r: bool)
    ensures
        r == s@.contains(v),
{
    let n = s.len();
    let mut i: usize = 0;
    while i < n
        invariant
            n == s@.len(),
            i <= n,
            forall|j: int| 0 <= j < i ==> s@[j] != v,
        decreases n - i,
    {
        if s[i] == v {
            proof {
                assert(s@.contains(v)) by {
                    assert(s@[i as int] == v);
                }
            }
            return true;
        }
        i += 1;
    }
    false
}

/// The subset with every occurrence of `v` dropped.
pub fn ps_remove(s: &Vec<u32>, v: u32) -> (r: Vec<u32>)
    ensures
        r@ == remove_val(s@, v),
{
    proof {
        assert(s@.skip(0) =~= s@);
    }
    let mut r: Vec<u32> = Vec::new();
    let n = s.len();
    let mut i: usize = 0;
    while i < n
        invariant
            n == s@.len(),
            i <= n,
            remove_val(s@, v) == r@ + remove_val(s@.skip(i as int), v),
        decreases n - i,
    {
        proof {
            assert(s@.skip(i as int)[0] == s@[i as int]);
            assert(s@.skip(i as int).skip(1) =~= s@.skip(i as int + 1));
        }
        if s[i] != v {
            r.push(s[i]);
            proof {
                assert(r@ + remove_val(s@.skip(i as int + 1), v) =~= (r@.drop_last() + (seq![
                    s@[i as int],
                ] + remove_val(s@.skip(i as int + 1), v))));
            }
        }
        i += 1;
    }
    proof {
        assert(remove_val(s@.skip(n as int), v) =~= Seq::<u32>::empty());
        assert(r@ + remove_val(s@.skip(n as int), v) =~= r@);
    }
    r
}

/// The sorted union of two sorted subsets.
pub fn ps_union(a: &Vec<u32>, b: &Vec<u32>) -> (r: Vec<u32>)
    requires
        strictly_sorted(a@),
        strictly_sorted(b@),
    ensures
        strictly_sorted(r@),
        forall|v: u32| r@.contains(v) <==> (a@.contains(v) || b@.contains(v)),
{
    let mut r: Vec<u32> = Vec::new();
    let na = a.len();
    let nb = b.len();
    let mut i: usize = 0;
    let mut j: usize = 0;
    while i < na || j < nb
        invariant
            na == a@.len(),
            nb == b@.len(),
            i <= na,
            j <= nb,
            strictly_sorted(a@),
            strictly_sorted(b@),
            strictly_sorted(r@),
            forall|v: u32|
                r@.contains(v) <==> (a@.take(i as int).contains(v) || b@.take(j as int).contains(
                    v,
                )),
            forall|k: int| i <= k < na ==> r@.len() == 0 || r@.last() < a@[k],
            forall|k: int| j <= k < nb ==> r@.len() == 0 || r@.last() < b@[k],
        decreases (na - i) + (nb - j),
    {
        let ghost r0 = r@;
        let ghost i0 = i as int;
        let ghost j0 = j as int;
        let next: u32;
        if i < na && (j >= nb || a[i] <= b[j]) {
            next = a[i];
            proof {
                assert(r0.len() == 0 || r0.last() < a@[i0]);
            }
            if j < nb && b[j] == next {
                j += 1;
            }
            i += 1;
        } else {
            next = b[j];
            proof {
                assert(r0.len() == 0 || r0.last() < b@[j0]);
            }
            j += 1;
        }
        r.push(next);
        proof {
            assert(r@ =~= r0.push(next));
            assert forall|k1: int, k2: int| 0 <= k1 < k2 < r@.len() implies r@[k1] < r@[k2] by {
                if k2 == r0.len() {
                    if k1 < r0.len() - 1 {
                        assert(r0[k1] < r0[r0.len() - 1]);
                    }
                }
            }
            assert forall|v: u32|
                r@.contains(v) <==> (a@.take(i as int).contains(v) || b@.take(j as int).contains(
                    v,
                )) by {
                if r0.contains(v) {
                    let k = choose|k: int| 0 <= k < r0.len() && r0[k] == v;
                    assert(r@[k] == v);
                }
                if r@.contains(v) {
                    let k = choose|k: int| 0 <= k < r@.len() && r@[k] == v;
                    if k < r0.len() {
                        assert(r0[k] == v);
                    }
                }
                if i as int != i0 {
                    lemma_take_succ_contains(a@, i0, v);
                }
                if j as int != j0 {
                    lemma_take_succ_contains(b@, j0, v);
                }
                if v == next {
                    assert(r@[r0.len() as int] == v);
                }
            }
        }
    }
    proof {
        assert(a@.take(na as int) =~= a@);
        assert(b@.take(nb as int) =~= b@);
    }
    r
}

/// A path subset as a bitmap over path indices.
pub fn ps_to_bitmap(s: &Vec<u32>) -> (r: roaring::RoaringBitmap)
    ensures
        forall|v: u32| bitmap_model(r).contains(v) <==> s@.contains(v),
        bitmap_model(r).finite(),
{
    let mut r = bm_new();
    let n = s.len();
    let mut i: usize = 0;
    while i < n
        invariant
            n == s@.len(),
            i <= n,
            bitmap_model(r).finite(),
            forall|v: u32| bitmap_model(r).contains(v) <==> s@.take(i as int).contains(v),
        decreases n - i,
    {
        bm_insert(&mut r, s[i]);
        proof {
            assert forall|v: u32|
                bitmap_model(r).contains(v) <==> s@.take(i as int + 1).contains(v) by {
                lemma_take_succ_contains(s@, i as int, v);
            }
        }
        i += 1;
    }
    proof {
        assert(s@.take(n as int) =~= s@);
    }
    r
}


/// The pair indices of all document pairs inside one partition group.
pub open spec fn group_pairs(s: Set<u32>) -> Set<u32> {
    Set::new(
        |t: u32|
            exists|di: u32, dj: u32|
                s.contains(di) && s.contains(dj) && di < dj && t as nat == pair_index_spec(
                    di as nat,
                    dj as nat,
                ),
    )
}

/// The pairwise-agreement set of one path: pairs of documents sharing some
/// value there.
pub open spec fn groups_agree(gs: Seq<(u32, Set<u32>)>) -> Set<u32> {
    Set::new(|t: u32| exists|g: int| 0 <= g < gs.len() && group_pairs(gs[g].1).contains(t))
}

/// The agreement set of a path subset: pairs agreeing on every path of the
/// subset, within the universe `all` of pair indices.
pub open spec fn agree_sets(singles: Seq<Set<u32>>, xs: Set<u32>, all: Set<u32>) -> Set<u32> {
    Set::new(
        |t: u32|
            all.contains(t) && forall|p: u32|
                #[trigger] xs.contains(p) ==> p < singles.len() && singles[p as int].contains(t),
    )
}

/// Agreement decomposition: the agreement set of the union of two disjoint
/// path subsets is the intersection of their agreement sets.
pub proof fn lemma_agree_decomposition(
    singles: Seq<Set<u32>>,
    ys: Set<u32>,
    zs: Set<u32>,
    all: Set<u32>,
)
    requires
        ys.disjoint(zs),
    ensures
        agree_sets(singles, ys.union(zs), all) == agree_sets(singles, ys, all).intersect(
            agree_sets(singles, zs, all),
        ),
{
    lemma_agree_union(singles, ys, zs, all);
}

/// The decomposition holds of any two subsets, disjoint or not.
pub proof fn lemma_agree_union(singles: Seq<Set<u32>>, ys: Set<u32>, zs: Set<u32>, all: Set<u32>)
    ensures
        agree_sets(singles, ys.union(zs), all) == agree_sets(singles, ys, all).intersect(
            agree_sets(singles, zs, all),
        ),
{
    let lhs = agree_sets(singles, ys.union(zs), all);
    let ry = agree_sets(singles, ys, all);
    let rz = agree_sets(singles, zs, all);
    assert forall|t: u32| lhs.contains(t) implies ry.contains(t) && rz.contains(t) by {
        assert forall|p: u32| #[trigger] ys.contains(p) implies p < singles.len() && singles[p
            as int].contains(t) by {
            assert(ys.union(zs).contains(p));
        }
        assert forall|p: u32| #[trigger] zs.contains(p) implies p < singles.len() && singles[p
            as int].contains(t) by {
            assert(ys.union(zs).contains(p));
        }
    }
    assert forall|t: u32| ry.contains(t) && rz.contains(t) implies lhs.contains(t) by {
        assert forall|p: u32| #[trigger] ys.union(zs).contains(p) implies p < singles.len()
            && singles[p as int].contains(t) by {
            assert(ys.contains(p) || zs.contains(p));
        }
    }
    assert(lhs =~= ry.intersect(rz));
}

/// The agreement-bitmap map: per path subset, its agreement set.
pub struct AgreeMap {
    entries: Vec<(Vec<u32>, roaring::RoaringBitmap)>,
}

impl AgreeMap {
    /// The stored subsets and their agreement sets, in insertion order.
    pub closed spec fn view_map(self) -> Seq<(Seq<u32>, Set<u32>)> {
        self.entries@.map_values(
            |e: (Vec<u32>, roaring::RoaringBitmap)| (e.0@, bitmap_model(e.1)),
        )
    }

    /// Keys strictly sorted and distinct; all sets finite.
    pub open spec fn wf(self) -> bool {
        &&& (forall|k: int|
            0 <= k < self.view_map().len() ==> strictly_sorted(
                (#[trigger] self.view_map()[k]).0,
            ))
        &&& (forall|k1: int, k2: int|
            0 <= k1 < k2 < self.view_map().len() ==> (#[trigger] self.view_map()[k1]).0 != (
            #[trigger] self.view_map()[k2]).0)
        &&& (forall|k: int|
            0 <= k < self.view_map().len() ==> (#[trigger] self.view_map()[k]).1.finite())
    }

    /// An empty map.
    pub fn new() -> (r: AgreeMap)
        ensures
            r.view_map() == Seq::<(Seq<u32>, Set<u32>)>::empty(),
            r.wf(),
    {
        let r = AgreeMap { entries: Vec::new() };
        proof {
            assert(r.view_map() =~= Seq::<(Seq<u32>, Set<u32>)>::empty());
        }
        r
    }

    /// The agreement bitmap of a subset, if stored.
    pub fn get(&self, key: &Vec<u32>) -> (r: Option<&roaring::RoaringBitmap>)
        ensures
            match r {
                Some(bm) => assoc_get(self.view_map(), key@) == Some(bitmap_model(*bm)),
                None => assoc_get(self.view_map(), key@) is None,
            },
    {
        let n = self.entries.len();
        let mut k: usize = 0;
        while k < n
            invariant
                n == self.view_map().len(),
                k <= n,
                forall|j: int| 0 <= j < k ==> (#[trigger] self.view_map()[j]).0 != key@,
            decreases n - k,
        {
            if ps_eq(&self.entries[k].0, key) {
                proof {
                    lemma_assoc_get_at(self.view_map(), key@, k as int);
                }
                return Some(&self.entries[k].1);
            }
            k += 1;
        }
        proof {
            lemma_assoc_get_absent(self.view_map(), key@);
        }
        None
    }

    /// Store the agreement bitmap of a subset not yet present.
    pub fn insert(&mut self, key: Vec<u32>, bm: roaring::RoaringBitmap)
        requires
            old(self).wf(),
            strictly_sorted(key@),
            bitmap_model(bm).finite(),
            assoc_get(old(self).view_map(), key@) is None,
        ensures
            final(self).wf(),
            final(self).view_map() == old(self).view_map().push((key@, bitmap_model(bm))),
    {
        proof {
            if exists|j: int|
                0 <= j < self.view_map().len() && (#[trigger] self.view_map()[j]).0 == key@ {
                let j = choose|j: int|
                    0 <= j < self.view_map().len() && (#[trigger] self.view_map()[j]).0 == key@;
                let jf = choose|jf: int|
                    0 <= jf <= j && (#[trigger] self.view_map()[jf]).0 == key@ && forall|j2: int|
                        0 <= j2 < jf ==> (#[trigger] self.view_map()[j2]).0 != key@;
                assert(false) by {
                    lemma_first_occurrence(self.view_map(), key@, j);
                }
            }
        }
        self.entries.push((key, bm));
        proof {
            assert(final(self).view_map() =~= old(self).view_map().push((key@, bitmap_model(bm))));
        }
    }
}

/// If some entry is keyed `k`, `assoc_get` returns a value.
proof fn lemma_first_occurrence(s: Seq<(Seq<u32>, Set<u32>)>, k: Seq<u32>, j: int)
    requires
        0 <= j < s.len(),
        s[j].0 == k,
    ensures
        assoc_get(s, k) is Some,
    decreases j,
{
    if s[0].0 != k {
        assert(s.skip(1)[j - 1] == s[j]);
        lemma_first_occurrence(s.skip(1), k, j - 1);
    }
}

/// One lattice element: its candidate right-hand sides and whether it is
/// still in active search.
pub struct LatElem {
    cplus: roaring::RoaringBitmap,
    valid: bool,
}

/// One lattice level: per path subset, its element.
pub struct Level {
    entries: Vec<(Vec<u32>, LatElem)>,
}

impl Level {
    /// The stored subsets with candidate sets and validity flags.
    pub closed spec fn view_map(self) -> Seq<(Seq<u32>, (Set<u32>, bool))> {
        self.entries@.map_values(
            |e: (Vec<u32>, LatElem)| (e.0@, (bitmap_model(e.1.cplus), e.1.valid)),
        )
    }

    /// Keys strictly sorted, non-empty and distinct; candidate sets finite.
    pub open spec fn wf(self) -> bool {
        &&& (forall|k: int|
            0 <= k < self.view_map().len() ==> strictly_sorted(
                (#[trigger] self.view_map()[k]).0,
            ))
        &&& (forall|k1: int, k2: int|
            0 <= k1 < k2 < self.view_map().len() ==> (#[trigger] self.view_map()[k1]).0 != (
            #[trigger] self.view_map()[k2]).0)
        &&& (forall|k: int|
            0 <= k < self.view_map().len() ==> (#[trigger] self.view_map()[k]).1.0.finite())
    }

    /// An empty level.
    pub fn new() -> (r: Level)
        ensures
            r.view_map() == Seq::<(Seq<u32>, (Set<u32>, bool))>::empty(),
            r.wf(),
    {
        let r = Level { entries: Vec::new() };
        proof {
            assert(r.view_map() =~= Seq::<(Seq<u32>, (Set<u32>, bool))>::empty());
        }
        r
    }

    /// Number of elements.
    pub fn len(&self) -> (r: usize)
        ensures
            r == self.view_map().len(),
    {
        self.entries.len()
    }

    /// The subset stored at a position.
    pub fn key_at(&self, k: usize) -> (r: &Vec<u32>)
        requires
            k < self.view_map().len(),
        ensures
            r@ == self.view_map()[k as int].0,
    {
        &self.entries[k].0
    }

    /// The candidate bitmap stored at a position.
    pub fn cplus_at(&self, k: usize) -> (r: &roaring::RoaringBitmap)
        requires
            k < self.view_map().len(),
        ensures
            bitmap_model(*r) == self.view_map()[k as int].1.0,
    {
        &self.entries[k].1.cplus
    }

    /// The validity flag stored at a position.
    pub fn valid_at(&self, k: usize) -> (r: bool)
        requires
            k < self.view_map().len(),
        ensures
            r == self.view_map()[k as int].1.1,
    {
        self.entries[k].1.valid
    }

    /// Position of the element keyed by a subset, if any.
    pub fn find(&self, key: &Vec<u32>) -> (r: Option<usize>)
        ensures
            match r {
                Some(k) => k < self.view_map().len() && self.view_map()[k as int].0 == key@
                    && assoc_get(self.view_map(), key@) == Some(self.view_map()[k as int].1),
                None => assoc_get(self.view_map(), key@) is None,
            },
    {
        let n = self.entries.len();
        let mut k: usize = 0;
        while k < n
            invariant
                n == self.view_map().len(),
                k <= n,
                forall|j: int| 0 <= j < k ==> (#[trigger] self.view_map()[j]).0 != key@,
            decreases n - k,
        {
            if ps_eq(&self.entries[k].0, key) {
                proof {
                    lemma_assoc_get_at(self.view_map(), key@, k as int);
                }
                return Some(k);
            }
            k += 1;
        }
        proof {
            lemma_assoc_get_absent(self.view_map(), key@);
        }
        None
    }

    /// Replace the candidate bitmap at a position.
    pub fn set_cplus(&mut self, k: usize, bm: roaring::RoaringBitmap)
        requires
            k < old(self).view_map().len(),
            bitmap_model(bm).finite(),
        ensures
            final(self).view_map() == old(self).view_map().update(
                k as int,
                (
                    old(self).view_map()[k as int].0,
                    (bitmap_model(bm), old(self).view_map()[k as int].1.1),
                ),
            ),
    {
        let e = &mut self.entries[k];
        e.1.cplus = bm;
        proof {
            assert(final(self).view_map() =~= old(self).view_map().update(
                k as int,
                (
                    old(self).view_map()[k as int].0,
                    (bitmap_model(bm), old(self).view_map()[k as int].1.1),
                ),
            ));
        }
    }

    /// Replace the candidate bitmap and clear the validity flag.
    pub fn set_cplus_invalid(&mut self, k: usize, bm: roaring::RoaringBitmap)
        requires
            k < old(self).view_map().len(),
            bitmap_model(bm).finite(),
        ensures
            final(self).view_map() == old(self).view_map().update(
                k as int,
                (old(self).view_map()[k as int].0, (bitmap_model(bm), false)),
            ),
    {
        let e = &mut self.entries[k];
        e.1.cplus = bm;
        e.1.valid = false;
        proof {
            assert(final(self).view_map() =~= old(self).view_map().update(
                k as int,
                (old(self).view_map()[k as int].0, (bitmap_model(bm), false)),
            ));
        }
    }

    /// Append an element under a subset not yet present.
    pub fn insert(&mut self, key: Vec<u32>, cplus: roaring::RoaringBitmap, valid: bool)
        requires
            old(self).wf(),
            strictly_sorted(key@),
            bitmap_model(cplus).finite(),
            assoc_get_level(old(self).view_map(), key@) is None,
        ensures
            final(self).wf(),
            final(self).view_map() == old(self).view_map().push(
                (key@, (bitmap_model(cplus), valid)),
            ),
    {
        proof {
            if exists|j: int|
                0 <= j < self.view_map().len() && (#[trigger] self.view_map()[j]).0 == key@ {
                let j = choose|j: int|
                    0 <= j < self.view_map().len() && (#[trigger] self.view_map()[j]).0 == key@;
                assert(false) by {
                    lemma_first_occurrence_level(self.view_map(), key@, j);
                }
            }
        }
        self.entries.push((key, LatElem { cplus, valid }));
        proof {
            assert(final(self).view_map() =~= old(self).view_map().push(
                (key@, (bitmap_model(cplus), valid)),
            ));
        }
    }
}

/// `assoc_get` at a level's value type.
pub open spec fn assoc_get_level(s: Seq<(Seq<u32>, (Set<u32>, bool))>, k: Seq<u32>) -> Option<
    (Set<u32>, bool),
> {
    assoc_get(s, k)
}

/// If some entry is keyed `k`, `assoc_get` returns a value.
proof fn lemma_first_occurrence_level(s: Seq<(Seq<u32>, (Set<u32>, bool))>, k: Seq<u32>, j: int)
    requires
        0 <= j < s.len(),
        s[j].0 == k,
    ensures
        assoc_get(s, k) is Some,
    decreases j,
{
    if s[0].0 != k {
        assert(s.skip(1)[j - 1] == s[j]);
        lemma_first_occurrence_level(s.skip(1), k, j - 1);
    }
}


/// Every document of every group lies below `n`.
pub open spec fn docs_below(gs: Seq<(u32, Set<u32>)>, n: u32) -> bool {
    forall|g: int, dv: u32|
        0 <= g < gs.len() && (#[trigger] gs[g].1.contains(dv)) ==> dv < n
}

/// Whether the document pair at positions `(a2, b2)` has been examined
/// when the outer scan stands at `b` and the inner at `a`.
pub open spec fn dpair_done(a2: int, b2: int, a: int, b: int) -> bool {
    b2 < b || (b2 == b && a2 < a)
}

/// The pair index of two document ids, as a stored bit.
pub open spec fn pair_u32(x: u32, y: u32) -> u32 {
    pair_index_spec(x as nat, y as nat) as u32
}

/// Build the pairwise-agreement bitmap of one collected path: one bit per
/// unordered pair of documents sharing a value there.
pub fn singleton_agree(st: &FdState, i: usize, n: u32) -> (r: roaring::RoaringBitmap)
    requires
        st.wf(),
        i < st.recs().len(),
        2 <= n <= MAX_FD_DOCS,
        docs_below(st.recs()[i as int].groups, n),
    ensures
        bitmap_model(r) == groups_agree(st.recs()[i as int].groups),
        bitmap_model(r).finite(),
{
    let ghost gs = st.recs()[i as int].groups;
    let mut bm = bm_new();
    let ng = st.group_count(i);
    let mut g: usize = 0;
    while g < ng
        invariant
            st.wf(),
            i < st.recs().len(),
            2 <= n <= MAX_FD_DOCS,
            gs == st.recs()[i as int].groups,
            docs_below(gs, n),
            ng == gs.len(),
            g <= ng,
            bitmap_model(bm).finite(),
            forall|t: u32|
                #[trigger] bitmap_model(bm).contains(t) ==> exists|g2: int|
                    0 <= g2 < g && group_pairs(#[trigger] gs[g2].1).contains(t),
            forall|g2: int, di: u32, dj: u32|
                #![trigger gs[g2].1.contains(di), gs[g2].1.contains(dj)]
                0 <= g2 < g && gs[g2].1.contains(di) && gs[g2].1.contains(dj) && di < dj
                    ==> bitmap_model(bm).contains(pair_u32(di, dj)),
        decreases ng - g,
    {
        let ghost before = bitmap_model(bm);
        let docs = bm_sorted_values(st.group_docs_at(i, g));
        proof {
            assert(forall|v: u32| docs@.contains(v) <==> gs[g as int].1.contains(v));
        }
        let nd = docs.len();
        let mut b: usize = 0;
        while b < nd
            invariant
                2 <= n <= MAX_FD_DOCS,
                docs_below(gs, n),
                g < gs.len(),
                nd == docs@.len(),
                b <= nd,
                strictly_sorted(docs@),
                forall|v: u32| docs@.contains(v) <==> gs[g as int].1.contains(v),
                bitmap_model(bm).finite(),
                forall|t: u32|
                    #[trigger] bitmap_model(bm).contains(t) ==> before.contains(t) || group_pairs(
                        gs[g as int].1,
                    ).contains(t),
                forall|t: u32| before.contains(t) ==> #[trigger] bitmap_model(bm).contains(t),
                forall|a2: int, b2: int|
                    0 <= a2 < b2 < docs@.len() && dpair_done(a2, b2, 0, b as int)
                        ==> bitmap_model(bm).contains(
                        #[trigger] pair_u32(docs@[a2], docs@[b2]),
                    ),
            decreases nd - b,
        {
            let mut a: usize = 0;
            while a < b
                invariant
                    2 <= n <= MAX_FD_DOCS,
                    docs_below(gs, n),
                    g < gs.len(),
                    nd == docs@.len(),
                    a <= b < nd,
                    strictly_sorted(docs@),
                    forall|v: u32| docs@.contains(v) <==> gs[g as int].1.contains(v),
                    bitmap_model(bm).finite(),
                    forall|t: u32|
                        #[trigger] bitmap_model(bm).contains(t) ==> before.contains(t)
                            || group_pairs(gs[g as int].1).contains(t),
                    forall|t: u32| before.contains(t) ==> #[trigger] bitmap_model(bm).contains(t),
                    forall|a2: int, b2: int|
                        0 <= a2 < b2 < docs@.len() && dpair_done(a2, b2, a as int, b as int)
                            ==> bitmap_model(bm).contains(
                            #[trigger] pair_u32(docs@[a2], docs@[b2]),
                        ),
                decreases b - a,
            {
                let da = docs[a];
                let db = docs[b];
                proof {
                    assert(docs@.contains(docs@[a as int]));
                    assert(docs@.contains(docs@[b as int]));
                    assert(da < db);
                    lemma_pair_index_below_count(da as nat, db as nat, n as nat);
                    assert(pair_count(n as nat) <= pair_count(MAX_FD_DOCS as nat))
                        by (nonlinear_arith)
                        requires
                            2 <= n <= MAX_FD_DOCS,
                    ;
                    assert(pair_count(MAX_FD_DOCS as nat) <= u32::MAX);
                }
                let t = index(da, db);
                bm_insert(&mut bm, t);
                proof {
                    assert(t == pair_u32(da, db));
                    assert(group_pairs(gs[g as int].1).contains(t)) by {
                        assert(gs[g as int].1.contains(da) && gs[g as int].1.contains(db) && da
                            < db && t as nat == pair_index_spec(da as nat, db as nat));
                    }
                    assert forall|a2: int, b2: int|
                        0 <= a2 < b2 < docs@.len() && dpair_done(a2, b2, a as int + 1, b as int)
                            implies bitmap_model(bm).contains(
                        #[trigger] pair_u32(docs@[a2], docs@[b2]),
                    ) by {
                        if a2 == a as int && b2 == b as int {
                            assert(pair_u32(docs@[a2], docs@[b2]) == t);
                        } else {
                            assert(dpair_done(a2, b2, a as int, b as int));
                        }
                    }
                }
                a += 1;
            }
            b += 1;
        }
        proof {
            assert forall|g2: int, di: u32, dj: u32|
                #![trigger gs[g2].1.contains(di), gs[g2].1.contains(dj)]
                0 <= g2 < g + 1 && gs[g2].1.contains(di) && gs[g2].1.contains(dj) && di < dj
                    implies bitmap_model(bm).contains(pair_u32(di, dj)) by {
                if g2 == g as int {
                    assert(docs@.contains(di));
                    assert(docs@.contains(dj));
                    let pa = choose|pa: int| 0 <= pa < docs@.len() && docs@[pa] == di;
                    let pb = choose|pb: int| 0 <= pb < docs@.len() && docs@[pb] == dj;
                    assert(pa < pb) by {
                        if pb < pa {
                            assert(docs@[pb] < docs@[pa]);
                        }
                        if pa == pb {
                            assert(di == dj);
                        }
                    }
                    assert(dpair_done(pa, pb, 0, nd as int));
                    assert(bitmap_model(bm).contains(pair_u32(docs@[pa], docs@[pb])));
                }
            }
            assert forall|t: u32| #[trigger] bitmap_model(bm).contains(t) implies exists|g2: int|
                0 <= g2 < g + 1 && group_pairs(#[trigger] gs[g2].1).contains(t) by {
                if before.contains(t) {
                    let g2 = choose|g2: int|
                        0 <= g2 < g && group_pairs(#[trigger] gs[g2].1).contains(t);
                    assert(0 <= g2 < g + 1 && group_pairs(gs[g2].1).contains(t));
                } else {
                    let gi = g as int;
                    assert(0 <= gi && gi < gi + 1 && group_pairs(gs[gi].1).contains(t));
                }
            }
        }
        g += 1;
    }
    proof {
        assert forall|t: u32| groups_agree(gs).contains(t) implies bitmap_model(bm).contains(
            t,
        ) by {
            let g2 = choose|g2: int| 0 <= g2 < gs.len() && group_pairs(#[trigger] gs[g2].1).contains(t);
            let (di, dj) = choose|di: u32, dj: u32|
                gs[g2].1.contains(di) && gs[g2].1.contains(dj) && di < dj && t as nat
                    == pair_index_spec(di as nat, dj as nat);
            lemma_pair_index_below_count(di as nat, dj as nat, n as nat);
            assert(pair_count(n as nat) <= pair_count(MAX_FD_DOCS as nat)) by (nonlinear_arith)
                requires
                    2 <= n <= MAX_FD_DOCS,
            ;
            assert(pair_count(MAX_FD_DOCS as nat) <= u32::MAX);
            assert(t == pair_u32(di, dj));
            assert(bitmap_model(bm).contains(pair_u32(di, dj)));
        }
        assert(bitmap_model(bm) =~= groups_agree(gs));
    }
    bm
}


/// The ordered document pair encoded by a pair index.
pub open spec fn unpair(t: u32) -> (u32, u32) {
    choose|p: (u32, u32)| p.0 < p.1 && pair_index_spec(p.0 as nat, p.1 as nat) == t as nat
}

/// The decode of a pair index is its unique ordered pair.
pub proof fn lemma_unpair(t: u32)
    ensures
        unpair(t).0 < unpair(t).1,
        pair_index_spec(unpair(t).0 as nat, unpair(t).1 as nat) == t as nat,
        forall|di: u32, dj: u32|
            di < dj && pair_index_spec(di as nat, dj as nat) == t as nat ==> (di, dj) == (
            #[trigger] unpair(t)),
{
    lemma_pair_index_exists(t);
    let p = unpair(t);
    assert(p.0 < p.1 && pair_index_spec(p.0 as nat, p.1 as nat) == t as nat);
    assert forall|di: u32, dj: u32|
        di < dj && pair_index_spec(di as nat, dj as nat) == t as nat implies (di, dj) == (
        #[trigger] unpair(t)) by {
        lemma_pair_index_injective(di, dj, p.0, p.1);
    }
}

/// One greedy step: mark both documents of a violating pair unless one of
/// them is already marked.
pub open spec fn greedy_step(m: Set<u32>, t: u32) -> Set<u32> {
    let p = unpair(t);
    if !m.contains(p.0) && !m.contains(p.1) {
        m.insert(p.0).insert(p.1)
    } else {
        m
    }
}

/// The marked documents after greedy first-touch over the violating pairs,
/// taken in increasing pair-index order.
pub open spec fn greedy_fold(m: Set<u32>, bits: Seq<u32>) -> Set<u32>
    decreases bits.len(),
{
    if bits.len() == 0 {
        m
    } else {
        greedy_fold(greedy_step(m, bits[0]), bits.skip(1))
    }
}

/// Folding one more pair steps the fold once.
pub proof fn lemma_greedy_push(m: Set<u32>, s: Seq<u32>, t: u32)
    ensures
        greedy_fold(m, s.push(t)) == greedy_step(greedy_fold(m, s), t),
    decreases s.len(),
{
    if s.len() == 0 {
        assert(s.push(t)[0] == t);
        assert(s.push(t).skip(1) =~= Seq::<u32>::empty());
        assert(greedy_fold(greedy_step(m, t), s.push(t).skip(1)) == greedy_step(m, t));
        assert(greedy_fold(m, s) == m);
    } else {
        assert(s.push(t)[0] == s[0]);
        assert(s.push(t).skip(1) =~= s.skip(1).push(t));
        lemma_greedy_push(greedy_step(m, s[0]), s.skip(1), t);
        assert(greedy_fold(m, s.push(t)) == greedy_fold(greedy_step(m, s[0]), s.skip(1).push(t)));
        assert(greedy_fold(m, s) == greedy_fold(greedy_step(m, s[0]), s.skip(1)));
    }
}

/// The greedy marking only grows, and stays finite.
pub proof fn lemma_greedy_monotone(m: Set<u32>, bits: Seq<u32>)
    requires
        m.finite(),
    ensures
        greedy_fold(m, bits).finite(),
        m.subset_of(greedy_fold(m, bits)),
    decreases bits.len(),
{
    if bits.len() != 0 {
        lemma_greedy_monotone(greedy_step(m, bits[0]), bits.skip(1));
    }
}

/// A strictly sorted enumeration of the members of a set.
pub open spec fn sorted_members(bits: Seq<u32>, s: Set<u32>) -> bool {
    strictly_sorted(bits) && forall|v: u32| bits.contains(v) <==> s.contains(v)
}

/// The greedy violation test: the marked documents, scaled by the threshold
/// denominator, stay under `(den - num) / den` of the document count.
pub open spec fn fd_criterion(bits: Seq<u32>, n: u32, num: u64, den: u64) -> bool {
    greedy_fold(Set::<u32>::empty(), bits).len() * den < (den - num) * n
}

/// Whether a violation set passes the greedy test.
pub open spec fn fd_holds(s: Set<u32>, n: u32, num: u64, den: u64) -> bool {
    exists|bits: Seq<u32>| sorted_members(bits, s) && fd_criterion(bits, n, num, den)
}

/// Run the greedy violation test over a violation bitmap.
pub fn check_bitmap(v: &roaring::RoaringBitmap, n: u32, tau_num: u64, tau_den: u64) -> (r: bool)
    requires
        0 < tau_den,
        tau_num <= tau_den,
    ensures
        r == fd_holds(bitmap_model(*v), n, tau_num, tau_den),
{
    let bits = bm_sorted_values(v);
    let mut marked = bm_new();
    let nb = bits.len();
    let mut k: usize = 0;
    proof {
        assert(bits@.take(0) =~= Seq::<u32>::empty());
    }
    while k < nb
        invariant
            nb == bits@.len(),
            k <= nb,
            bitmap_model(marked) == greedy_fold(Set::<u32>::empty(), bits@.take(k as int)),
        decreases nb - k,
    {
        let t = bits[k];
        let (di, dj) = reverse_index(t);
        proof {
            lemma_unpair(t);
            assert((di, dj) == unpair(t));
            lemma_greedy_push(Set::<u32>::empty(), bits@.take(k as int), t);
            assert(bits@.take(k as int + 1) =~= bits@.take(k as int).push(t));
        }
        if !bm_contains(&marked, di) && !bm_contains(&marked, dj) {
            bm_insert(&mut marked, di);
            bm_insert(&mut marked, dj);
        }
        k += 1;
    }
    proof {
        assert(bits@.take(nb as int) =~= bits@);
    }
    let cnt = bm_len(&marked);
    let r = mul_u64(cnt, tau_den) < mul_u64(tau_den - tau_num, n as u64);
    proof {
        if r {
            assert(sorted_members(bits@, bitmap_model(*v)));
            assert(fd_criterion(bits@, n, tau_num, tau_den));
        }
        if fd_holds(bitmap_model(*v), n, tau_num, tau_den) {
            let bits2 = choose|bits2: Seq<u32>|
                sorted_members(bits2, bitmap_model(*v)) && fd_criterion(bits2, n, tau_num, tau_den);
            lemma_sorted_unique(bits2, bits@);
        }
    }
    r
}

/// At threshold one the greedy test never passes: the marked-document
/// fraction would have to fall below zero.
pub proof fn lemma_fd_tau_one(s: Set<u32>, n: u32, den: u64)
    requires
        0 < den,
    ensures
        !fd_holds(s, n, den, den),
{
}

/// A violation set whose greedy marking is empty is itself empty.
pub proof fn lemma_greedy_zero(bits: Seq<u32>)
    requires
        greedy_fold(Set::<u32>::empty(), bits).len() == 0,
    ensures
        bits.len() == 0,
{
    if bits.len() != 0 {
        let t = bits[0];
        lemma_unpair(t);
        let p = unpair(t);
        let m1 = greedy_step(Set::<u32>::empty(), t);
        assert(m1 == Set::<u32>::empty().insert(p.0).insert(p.1));
        assert(m1.contains(p.0));
        assert(m1.finite());
        lemma_greedy_monotone(m1, bits.skip(1));
        assert(greedy_fold(Set::<u32>::empty(), bits).contains(p.0));
        vstd::set_lib::lemma_set_empty_equivalency_len(
            greedy_fold(Set::<u32>::empty(), bits),
        );
    }
}

/// Exact soundness: with an empty violation set, every pair agreeing on the
/// left-hand side agrees on the right-hand side.
pub proof fn lemma_fd_exact_soundness(agl: Set<u32>, agr: Set<u32>, t: u32)
    requires
        agl.difference(agr) == Set::<u32>::empty(),
        agl.contains(t),
    ensures
        agr.contains(t),
{
    assert(!agl.difference(agr).contains(t));
}

/// Exact soundness of an emission with no marked documents: when the greedy
/// marking over the violation set `agree(lhs) \ agree(rhs)` is empty, every
/// pair of documents agreeing on the left-hand side agrees on the right-hand
/// side.
pub proof fn lemma_fd_zero_marked_soundness(agl: Set<u32>, agr: Set<u32>, bits: Seq<u32>, t: u32)
    requires
        sorted_members(bits, agl.difference(agr)),
        greedy_fold(Set::<u32>::empty(), bits).len() == 0,
        agl.contains(t),
    ensures
        agr.contains(t),
{
    lemma_greedy_zero(bits);
    assert(!agl.difference(agr).contains(t)) by {
        if agl.difference(agr).contains(t) {
            assert(bits.contains(t));
        }
    }
}


/// The candidate set a lattice element receives from the previous level:
/// the intersection of the candidate sets of all its immediate subsets,
/// a missing subset contributing nothing.
pub open spec fn cplus_init_spec(x: Seq<u32>, lvl0: Seq<(Seq<u32>, (Set<u32>, bool))>) -> Set<
    u32,
> {
    Set::new(
        |t: u32|
            forall|k: int|
                0 <= k < x.len() ==> (match assoc_get(lvl0, remove_val(x, #[trigger] x[k])) {
                    Some(e) => e.0.contains(t),
                    None => false,
                }),
    )
}

/// The intersection of the candidate contributions of the first `m`
/// elements of `x`.
pub open spec fn cplus_prefix(x: Seq<u32>, lvl0: Seq<(Seq<u32>, (Set<u32>, bool))>, m: int) -> Set<
    u32,
> {
    Set::new(
        |t: u32|
            forall|k: int|
                0 <= k < m ==> (match assoc_get(lvl0, remove_val(x, #[trigger] x[k])) {
                    Some(e) => e.0.contains(t),
                    None => false,
                }),
    )
}

/// Monotone candidate sets: the candidate set seeded for `X` is contained
/// in the candidate set of every present immediate subset `X \ {A}`, and is
/// empty when one is absent.
pub proof fn lemma_cplus_monotone(
    x: Seq<u32>,
    lvl0: Seq<(Seq<u32>, (Set<u32>, bool))>,
    idx: int,
)
    requires
        0 <= idx < x.len(),
    ensures
        match assoc_get(lvl0, remove_val(x, x[idx])) {
            Some(e) => cplus_init_spec(x, lvl0).subset_of(e.0),
            None => cplus_init_spec(x, lvl0) == Set::<u32>::empty(),
        },
{
    match assoc_get(lvl0, remove_val(x, x[idx])) {
        Some(e) => {
            assert forall|t: u32| cplus_init_spec(x, lvl0).contains(t) implies e.0.contains(t) by {
                assert(0 <= idx < x.len());
            }
        },
        None => {
            assert(cplus_init_spec(x, lvl0) =~= Set::<u32>::empty());
        },
    }
}

/// Seed the candidate set of every element of a level from the previous
/// level.
pub fn initialize_cplus_for_level(level0: &Level, level1: &mut Level)
    requires
        level0.wf(),
        old(level1).wf(),
        forall|k: int|
            0 <= k < old(level1).view_map().len()
                ==> (#[trigger] old(level1).view_map()[k]).0.len() > 0,
    ensures
        final(level1).wf(),
        final(level1).view_map().len() == old(level1).view_map().len(),
        forall|k: int|
            0 <= k < final(level1).view_map().len()
                ==> (#[trigger] final(level1).view_map()[k]).0 == old(level1).view_map()[k].0
                && final(level1).view_map()[k].1.1 == old(level1).view_map()[k].1.1
                && final(level1).view_map()[k].1.0 == cplus_init_spec(
                old(level1).view_map()[k].0,
                level0.view_map(),
            ),
{
    let nl = level1.len();
    let mut k: usize = 0;
    while k < nl
        invariant
            level0.wf(),
            level1.wf(),
            nl == level1.view_map().len() == old(level1).view_map().len(),
            k <= nl,
            forall|k2: int|
                0 <= k2 < nl ==> (#[trigger] level1.view_map()[k2]).0 == old(level1).view_map()[k2].0
                    && level1.view_map()[k2].1.1 == old(level1).view_map()[k2].1.1,
            forall|k2: int|
                0 <= k2 < nl ==> (#[trigger] old(level1).view_map()[k2]).0.len() > 0,
            forall|k2: int|
                0 <= k2 < k ==> (#[trigger] level1.view_map()[k2]).1.0 == cplus_init_spec(
                    old(level1).view_map()[k2].0,
                    level0.view_map(),
                ),
        decreases nl - k,
    {
        let key = ps_clone(level1.key_at(k));
        let ghost kv = key@;
        let nk = key.len();
        let mut acc: Option<roaring::RoaringBitmap> = None;
        let mut idx: usize = 0;
        while idx < nk
            invariant
                level0.wf(),
                nk == kv.len(),
                idx <= nk,
                key@ == kv,
                match acc {
                    Some(bmacc) => idx > 0 && bitmap_model(bmacc).finite() && bitmap_model(bmacc)
                        == cplus_prefix(kv, level0.view_map(), idx as int),
                    None => idx == 0,
                },
            decreases nk - idx,
        {
            let ghost prefix = cplus_prefix(kv, level0.view_map(), idx as int);
            let ghost prefix1 = cplus_prefix(kv, level0.view_map(), idx as int + 1);
            let sub = ps_remove(&key, key[idx]);
            let term: Option<&roaring::RoaringBitmap>;
            match level0.find(&sub) {
                Some(pos) => {
                    term = Some(level0.cplus_at(pos));
                    proof {
                        assert(level0.view_map()[pos as int].1.0.finite());
                    }
                },
                None => {
                    term = None;
                },
            }
            let ghost termv = assoc_get(level0.view_map(), remove_val(kv, kv[idx as int]));
            match term {
                Some(bterm) => {
                    proof {
                        assert(termv matches Some(e) && e.0 == bitmap_model(*bterm));
                    }
                    let merged: roaring::RoaringBitmap;
                    match &acc {
                        None => {
                            merged = bm_clone(bterm);
                            proof {
                                assert forall|t: u32| prefix.contains(t) by {}
                                assert(bitmap_model(merged) =~= prefix.intersect(
                                    bitmap_model(*bterm),
                                ));
                            }
                        },
                        Some(bmacc) => {
                            merged = bm_and(bmacc, bterm);
                        },
                    }
                    proof {
                        assert forall|t: u32|
                            prefix1.contains(t) <==> (prefix.contains(t) && bitmap_model(
                                *bterm,
                            ).contains(t)) by {
                            if prefix.contains(t) && bitmap_model(*bterm).contains(t) {
                                assert forall|k3: int| 0 <= k3 < idx + 1 implies (match assoc_get(
                                    level0.view_map(),
                                    remove_val(kv, #[trigger] kv[k3]),
                                ) {
                                    Some(e) => e.0.contains(t),
                                    None => false,
                                }) by {
                                    if k3 == idx {
                                        assert(termv matches Some(e) && e.0.contains(t));
                                    }
                                }
                            }
                        }
                        assert(bitmap_model(merged) =~= prefix1);
                    }
                    acc = Some(merged);
                },
                None => {
                    proof {
                        assert(termv is None);
                        assert forall|t: u32| !prefix1.contains(t) by {
                            let ii = idx as int;
                            assert(0 <= ii && ii < ii + 1);
                            assert(match assoc_get(
                                level0.view_map(),
                                remove_val(kv, kv[ii]),
                            ) {
                                Some(e) => e.0.contains(t),
                                None => false,
                            } == false);
                        }
                    }
                    let fresh = bm_new();
                    proof {
                        assert(bitmap_model(fresh) =~= prefix1);
                    }
                    acc = Some(fresh);
                },
            }
            idx += 1;
        }
        match acc {
            Some(bmacc) => {
                proof {
                    assert(bitmap_model(bmacc) == cplus_prefix(kv, level0.view_map(), nk as int));
                    assert(bitmap_model(bmacc) =~= cplus_init_spec(kv, level0.view_map()));
                }
                level1.set_cplus(k, bmacc);
            },
            None => {
                proof {
                    assert(false);
                }
            },
        }
        k += 1;
    }
}


/// Whether an emitted dependency `lhs -> a` is justified: both agreement
/// sets are stored, and their difference passes the greedy violation test.
pub open spec fn fd_emitted_ok(
    lhs: Seq<u32>,
    a: u32,
    am: Seq<(Seq<u32>, Set<u32>)>,
    n: u32,
    num: u64,
    den: u64,
) -> bool {
    match (assoc_get(am, lhs), assoc_get(am, seq![a])) {
        (Some(agl), Some(agr)) => fd_holds(agl.difference(agr), n, num, den),
        _ => false,
    }
}


/// The emitted-dependency views: each dependency as its id-level pair.
pub open spec fn dep_views(s: Seq<(Vec<u32>, u32)>) -> Seq<(Seq<u32>, u32)> {
    s.map_values(|d: (Vec<u32>, u32)| (d.0@, d.1))
}

/// Whether the pair `X \ {a} -> a` passes the violation test against the
/// stored agreement sets.
pub open spec fn fd_check_pair(
    am: Seq<(Seq<u32>, Set<u32>)>,
    x: Seq<u32>,
    a: u32,
    n: u32,
    num: u64,
    den: u64,
) -> bool {
    match (assoc_get(am, remove_val(x, a)), assoc_get(am, seq![a])) {
        (Some(agl), Some(agr)) => fd_holds(agl.difference(agr), n, num, den),
        _ => false,
    }
}

/// The dependencies one valid element emits for its candidates from
/// position `m` on: `X \ {A} -> A` for each `A` in the seeded candidate set
/// that passes the violation test.
pub open spec fn compute_entry_deps(
    x: Seq<u32>,
    scl: Set<u32>,
    am: Seq<(Seq<u32>, Set<u32>)>,
    n: u32,
    num: u64,
    den: u64,
    m: int,
) -> Seq<(Seq<u32>, u32)>
    decreases x.len() - m,
{
    if m < 0 || m >= x.len() {
        Seq::empty()
    } else {
        let rest = compute_entry_deps(x, scl, am, n, num, den, m + 1);
        if scl.contains(x[m]) && fd_check_pair(am, x, x[m], n, num, den) {
            seq![(remove_val(x, x[m]), x[m])] + rest
        } else {
            rest
        }
    }
}

/// Whether some candidate among the first `m` positions of `x` is emitted.
pub open spec fn compute_emits_before(
    x: Seq<u32>,
    scl: Set<u32>,
    am: Seq<(Seq<u32>, Set<u32>)>,
    n: u32,
    num: u64,
    den: u64,
    m: int,
) -> bool {
    exists|i: int|
        0 <= i < m && i < x.len() && scl.contains(#[trigger] x[i]) && fd_check_pair(
            am,
            x,
            x[i],
            n,
            num,
            den,
        )
}

/// Whether `c` is emitted among the first `m` positions of `x`.
pub open spec fn compute_emitted_before(
    x: Seq<u32>,
    scl: Set<u32>,
    am: Seq<(Seq<u32>, Set<u32>)>,
    n: u32,
    num: u64,
    den: u64,
    m: int,
    c: u32,
) -> bool {
    exists|i: int|
        0 <= i < m && i < x.len() && #[trigger] x[i] == c && scl.contains(c) && fd_check_pair(
            am,
            x,
            c,
            n,
            num,
            den,
        )
}

/// The candidate set after the first `m` candidates were examined: once a
/// dependency is emitted, only unemitted candidates inside `x` remain.
pub open spec fn compute_cplus_prefix(
    x: Seq<u32>,
    scl: Set<u32>,
    am: Seq<(Seq<u32>, Set<u32>)>,
    n: u32,
    num: u64,
    den: u64,
    m: int,
) -> Set<u32> {
    if compute_emits_before(x, scl, am, n, num, den, m) {
        Set::new(
            |c: u32|
                scl.contains(c) && x.contains(c) && !compute_emitted_before(
                    x,
                    scl,
                    am,
                    n,
                    num,
                    den,
                    m,
                    c,
                ),
        )
    } else {
        scl
    }
}

/// The final candidate set of one valid element.
pub open spec fn compute_entry_cplus(
    x: Seq<u32>,
    scl: Set<u32>,
    am: Seq<(Seq<u32>, Set<u32>)>,
    n: u32,
    num: u64,
    den: u64,
) -> Set<u32> {
    compute_cplus_prefix(x, scl, am, n, num, den, x.len() as int)
}

/// One element after dependency computation: a valid element keeps its key
/// and flag and receives its final candidate set; an invalid one is
/// untouched.
pub open spec fn compute_model_entry(
    e: (Seq<u32>, (Set<u32>, bool)),
    am: Seq<(Seq<u32>, Set<u32>)>,
    n: u32,
    num: u64,
    den: u64,
) -> (Seq<u32>, (Set<u32>, bool)) {
    if e.1.1 {
        (e.0, (compute_entry_cplus(e.0, e.1.0, am, n, num, den), true))
    } else {
        e
    }
}

/// All dependencies the level emits, element by element in order.
pub open spec fn compute_model_deps(
    lvl: Seq<(Seq<u32>, (Set<u32>, bool))>,
    am: Seq<(Seq<u32>, Set<u32>)>,
    n: u32,
    num: u64,
    den: u64,
) -> Seq<(Seq<u32>, u32)>
    decreases lvl.len(),
{
    if lvl.len() == 0 {
        Seq::empty()
    } else {
        (if lvl[0].1.1 {
            compute_entry_deps(lvl[0].0, lvl[0].1.0, am, n, num, den, 0)
        } else {
            Seq::empty()
        }) + compute_model_deps(lvl.skip(1), am, n, num, den)
    }
}

/// A level with every candidate set seeded from the previous level.
pub open spec fn seeded_level(
    lvl: Seq<(Seq<u32>, (Set<u32>, bool))>,
    lvl0: Seq<(Seq<u32>, (Set<u32>, bool))>,
) -> Seq<(Seq<u32>, (Set<u32>, bool))> {
    lvl.map_values(
        |e: (Seq<u32>, (Set<u32>, bool))| (e.0, (cplus_init_spec(e.0, lvl0), e.1.1)),
    )
}

/// Compute the dependencies of one level: seed the candidate sets, then for
/// every valid element `X` and candidate `A` in `X`, emit `X \ {A} -> A`
/// when the violation set passes the greedy test, shrinking the candidate
/// set accordingly.  Every emitted dependency is justified by the stored
/// agreement sets.
pub fn compute_dependencies(
    level0: &Level,
    level1: &mut Level,
    am: &AgreeMap,
    n: u32,
    tau_num: u64,
    tau_den: u64,
) -> (deps: Vec<(Vec<u32>, u32)>)
    requires
        level0.wf(),
        old(level1).wf(),
        0 < tau_den,
        tau_num <= tau_den,
        forall|k: int|
            0 <= k < old(level1).view_map().len()
                ==> (#[trigger] old(level1).view_map()[k]).0.len() > 0,
    ensures
        final(level1).wf(),
        final(level1).view_map() == seeded_level(
            old(level1).view_map(),
            level0.view_map(),
        ).map_values(
            |e: (Seq<u32>, (Set<u32>, bool))| compute_model_entry(
                e,
                am.view_map(),
                n,
                tau_num,
                tau_den,
            ),
        ),
        dep_views(deps@) == compute_model_deps(
            seeded_level(old(level1).view_map(), level0.view_map()),
            am.view_map(),
            n,
            tau_num,
            tau_den,
        ),
        final(level1).view_map().len() == old(level1).view_map().len(),
        forall|k: int|
            0 <= k < final(level1).view_map().len()
                ==> (#[trigger] final(level1).view_map()[k]).0 == old(level1).view_map()[k].0
                && final(level1).view_map()[k].1.1 == old(level1).view_map()[k].1.1,
        forall|k: int|
            0 <= k < final(level1).view_map().len()
                ==> (#[trigger] final(level1).view_map()[k]).1.0.subset_of(
                cplus_init_spec(old(level1).view_map()[k].0, level0.view_map()),
            ),
        forall|j: int|
            0 <= j < deps@.len() ==> fd_emitted_ok(
                (#[trigger] deps@[j]).0@,
                deps@[j].1,
                am.view_map(),
                n,
                tau_num,
                tau_den,
            ),
{
    initialize_cplus_for_level(level0, level1);
    let ghost seeded = level1.view_map();
    let ghost amv = am.view_map();
    proof {
        assert(seeded =~= seeded_level(old(level1).view_map(), level0.view_map()));
    }
    let mut deps: Vec<(Vec<u32>, u32)> = Vec::new();
    let nl = level1.len();
    let mut k: usize = 0;
    proof {
        assert(seeded.skip(0) =~= seeded);
        assert(dep_views(deps@) =~= Seq::<(Seq<u32>, u32)>::empty());
    }
    while k < nl
        invariant
            level1.wf(),
            0 < tau_den,
            tau_num <= tau_den,
            amv == am.view_map(),
            nl == level1.view_map().len() == seeded.len(),
            k <= nl,
            forall|k2: int|
                0 <= k2 < nl ==> (#[trigger] level1.view_map()[k2]).0 == seeded[k2].0
                    && level1.view_map()[k2].1.1 == seeded[k2].1.1,
            forall|k2: int|
                0 <= k2 < nl ==> (#[trigger] level1.view_map()[k2]).1.0.subset_of(seeded[k2].1.0),
            forall|k2: int|
                0 <= k2 < k ==> (#[trigger] level1.view_map()[k2]) == compute_model_entry(
                    seeded[k2],
                    amv,
                    n,
                    tau_num,
                    tau_den,
                ),
            forall|k2: int| k <= k2 < nl ==> (#[trigger] level1.view_map()[k2]) == seeded[k2],
            compute_model_deps(seeded, amv, n, tau_num, tau_den) == dep_views(deps@)
                + compute_model_deps(seeded.skip(k as int), amv, n, tau_num, tau_den),
            forall|j: int|
                0 <= j < deps@.len() ==> fd_emitted_ok(
                    (#[trigger] deps@[j]).0@,
                    deps@[j].1,
                    amv,
                    n,
                    tau_num,
                    tau_den,
                ),
        decreases nl - k,
    {
        proof {
            assert(seeded.skip(k as int)[0] == seeded[k as int]);
            assert(seeded.skip(k as int).skip(1) =~= seeded.skip(k as int + 1));
        }
        if level1.valid_at(k) {
            let key = ps_clone(level1.key_at(k));
            let ghost x = seeded[k as int].0;
            let ghost scl = seeded[k as int].1.0;
            proof {
                assert(key@ == x);
                assert(strictly_sorted(x));
                assert(level1.view_map()[k as int].1.0 == compute_cplus_prefix(
                    x,
                    scl,
                    amv,
                    n,
                    tau_num,
                    tau_den,
                    0,
                )) by {
                    assert(!compute_emits_before(x, scl, amv, n, tau_num, tau_den, 0));
                }
            }
            let nk = key.len();
            let mut idx: usize = 0;
            while idx < nk
                invariant
                    level1.wf(),
                    0 < tau_den,
                    tau_num <= tau_den,
                    amv == am.view_map(),
                    nl == level1.view_map().len() == seeded.len(),
                    k < nl,
                    nk == key@.len(),
                    idx <= nk,
                    key@ == x,
                    x == seeded[k as int].0,
                    scl == seeded[k as int].1.0,
                    strictly_sorted(x),
                    seeded[k as int].1.1,
                    forall|k2: int|
                        0 <= k2 < nl ==> (#[trigger] level1.view_map()[k2]).0 == seeded[k2].0
                            && level1.view_map()[k2].1.1 == seeded[k2].1.1,
                    forall|k2: int|
                        0 <= k2 < nl ==> (#[trigger] level1.view_map()[k2]).1.0.subset_of(
                            seeded[k2].1.0,
                        ),
                    forall|k2: int|
                        0 <= k2 < k ==> (#[trigger] level1.view_map()[k2]) == compute_model_entry(
                            seeded[k2],
                            amv,
                            n,
                            tau_num,
                            tau_den,
                        ),
                    forall|k2: int|
                        k < k2 < nl ==> (#[trigger] level1.view_map()[k2]) == seeded[k2],
                    level1.view_map()[k as int].1.0 == compute_cplus_prefix(
                        x,
                        scl,
                        amv,
                        n,
                        tau_num,
                        tau_den,
                        idx as int,
                    ),
                    compute_model_deps(seeded, amv, n, tau_num, tau_den) == dep_views(deps@)
                        + compute_entry_deps(x, scl, amv, n, tau_num, tau_den, idx as int)
                        + compute_model_deps(seeded.skip(k as int + 1), amv, n, tau_num, tau_den),
                    forall|j: int|
                        0 <= j < deps@.len() ==> fd_emitted_ok(
                            (#[trigger] deps@[j]).0@,
                            deps@[j].1,
                            amv,
                            n,
                            tau_num,
                            tau_den,
                        ),
                decreases nk - idx,
            {
                let a = key[idx];
                let ghost mi = idx as int;
                proof {
                    assert(x.contains(a)) by {
                        assert(x[mi] == a);
                    }
                    assert(!compute_emitted_before(x, scl, amv, n, tau_num, tau_den, mi, a)) by {
                        if compute_emitted_before(x, scl, amv, n, tau_num, tau_den, mi, a) {
                            let i = choose|i: int|
                                0 <= i < mi && i < x.len() && #[trigger] x[i] == a && scl.contains(
                                    a,
                                ) && fd_check_pair(am.view_map(), x, a, n, tau_num, tau_den);
                            assert(x[i] < x[mi]);
                        }
                    }
                    assert(compute_cplus_prefix(x, scl, amv, n, tau_num, tau_den, mi).contains(a)
                        == scl.contains(a));
                }
                let in_cplus = bm_contains(level1.cplus_at(k), a);
                let mut emitted = false;
                if in_cplus {
                    let lhs = ps_remove(&key, a);
                    let mut single: Vec<u32> = Vec::new();
                    single.push(a);
                    proof {
                        assert(single@ =~= seq![a]);
                    }
                    let lhs_bm = am.get(&lhs);
                    let rhs_bm = am.get(&single);
                    match (lhs_bm, rhs_bm) {
                        (Some(bl), Some(br)) => {
                            let viol = bm_sub(bl, br);
                            if check_bitmap(&viol, n, tau_num, tau_den) {
                                proof {
                                    assert(fd_check_pair(amv, x, a, n, tau_num, tau_den));
                                    assert(fd_emitted_ok(lhs@, a, amv, n, tau_num, tau_den));
                                }
                                let ghost deps0 = dep_views(deps@);
                                deps.push((ps_clone(&lhs), a));
                                emitted = true;
                                proof {
                                    assert(dep_views(deps@) =~= deps0.push(
                                        (remove_val(x, a), a),
                                    ));
                                    assert(compute_entry_deps(x, scl, amv, n, tau_num, tau_den, mi)
                                        == seq![(remove_val(x, a), a)] + compute_entry_deps(
                                        x,
                                        scl,
                                        amv,
                                        n,
                                        tau_num,
                                        tau_den,
                                        mi + 1,
                                    ));
                                    assert(deps0 + compute_entry_deps(
                                        x,
                                        scl,
                                        amv,
                                        n,
                                        tau_num,
                                        tau_den,
                                        mi,
                                    ) =~= dep_views(deps@) + compute_entry_deps(
                                        x,
                                        scl,
                                        amv,
                                        n,
                                        tau_num,
                                        tau_den,
                                        mi + 1,
                                    ));
                                    assert((deps0 + compute_entry_deps(
                                        x,
                                        scl,
                                        amv,
                                        n,
                                        tau_num,
                                        tau_den,
                                        mi,
                                    )) + compute_model_deps(
                                        seeded.skip(k as int + 1),
                                        amv,
                                        n,
                                        tau_num,
                                        tau_den,
                                    ) =~= (dep_views(deps@) + compute_entry_deps(
                                        x,
                                        scl,
                                        amv,
                                        n,
                                        tau_num,
                                        tau_den,
                                        mi + 1,
                                    )) + compute_model_deps(
                                        seeded.skip(k as int + 1),
                                        amv,
                                        n,
                                        tau_num,
                                        tau_den,
                                    ));
                                }
                                let keep = ps_to_bitmap(&lhs);
                                let newc = bm_and(level1.cplus_at(k), &keep);
                                proof {
                                    lemma_remove_val(x, a);
                                    assert(bitmap_model(newc) =~= compute_cplus_prefix(
                                        x,
                                        scl,
                                        amv,
                                        n,
                                        tau_num,
                                        tau_den,
                                        mi + 1,
                                    )) by {
                                        lemma_compute_prefix_step(
                                            x,
                                            scl,
                                            amv,
                                            n,
                                            tau_num,
                                            tau_den,
                                            mi,
                                        );
                                    }
                                    assert(bitmap_model(newc).subset_of(scl));
                                }
                                level1.set_cplus(k, newc);
                            }
                        },
                        _ => {},
                    }
                }
                proof {
                    if !emitted {
                        assert(!(scl.contains(a) && fd_check_pair(
                            amv,
                            x,
                            a,
                            n,
                            tau_num,
                            tau_den,
                        )));
                        assert(compute_entry_deps(x, scl, amv, n, tau_num, tau_den, mi)
                            == compute_entry_deps(x, scl, amv, n, tau_num, tau_den, mi + 1));
                        assert(compute_cplus_prefix(x, scl, amv, n, tau_num, tau_den, mi + 1)
                            =~= compute_cplus_prefix(x, scl, amv, n, tau_num, tau_den, mi)) by {
                            lemma_compute_prefix_step(x, scl, amv, n, tau_num, tau_den, mi);
                        }
                    }
                }
                idx += 1;
            }
            proof {
                assert(compute_entry_deps(x, scl, amv, n, tau_num, tau_den, nk as int)
                    == Seq::<(Seq<u32>, u32)>::empty());
                assert(dep_views(deps@) + Seq::<(Seq<u32>, u32)>::empty() + compute_model_deps(
                    seeded.skip(k as int + 1),
                    amv,
                    n,
                    tau_num,
                    tau_den,
                ) =~= dep_views(deps@) + compute_model_deps(
                    seeded.skip(k as int + 1),
                    amv,
                    n,
                    tau_num,
                    tau_den,
                ));
                assert(level1.view_map()[k as int] == compute_model_entry(
                    seeded[k as int],
                    amv,
                    n,
                    tau_num,
                    tau_den,
                ));
            }
        } else {
            proof {
                assert(level1.view_map()[k as int] == compute_model_entry(
                    seeded[k as int],
                    amv,
                    n,
                    tau_num,
                    tau_den,
                ));
                assert(dep_views(deps@) + compute_model_deps(
                    seeded.skip(k as int),
                    amv,
                    n,
                    tau_num,
                    tau_den,
                ) =~= dep_views(deps@) + (Seq::<(Seq<u32>, u32)>::empty() + compute_model_deps(
                    seeded.skip(k as int + 1),
                    amv,
                    n,
                    tau_num,
                    tau_den,
                )));
            }
        }
        k += 1;
    }
    proof {
        assert(seeded.skip(nl as int).len() == 0);
        assert(dep_views(deps@) + compute_model_deps(
            seeded.skip(nl as int),
            amv,
            n,
            tau_num,
            tau_den,
        ) =~= dep_views(deps@));
        assert(level1.view_map() =~= seeded.map_values(
            |e: (Seq<u32>, (Set<u32>, bool))| compute_model_entry(e, amv, n, tau_num, tau_den),
        ));
    }
    deps
}

/// Examining one more candidate either leaves the prefix candidate set
/// unchanged (no emission) or removes the emitted candidate and everything
/// outside the subset.
proof fn lemma_compute_prefix_step(
    x: Seq<u32>,
    scl: Set<u32>,
    am: Seq<(Seq<u32>, Set<u32>)>,
    n: u32,
    num: u64,
    den: u64,
    m: int,
)
    requires
        0 <= m < x.len(),
        strictly_sorted(x),
    ensures
        (scl.contains(x[m]) && fd_check_pair(am, x, x[m], n, num, den)) ==> compute_cplus_prefix(
            x,
            scl,
            am,
            n,
            num,
            den,
            m + 1,
        ) =~= compute_cplus_prefix(x, scl, am, n, num, den, m).intersect(
            Set::new(|c: u32| x.contains(c) && c != x[m]),
        ),
        !(scl.contains(x[m]) && fd_check_pair(am, x, x[m], n, num, den)) ==> compute_cplus_prefix(
            x,
            scl,
            am,
            n,
            num,
            den,
            m + 1,
        ) =~= compute_cplus_prefix(x, scl, am, n, num, den, m),
{
    let a = x[m];
    assert forall|c: u32|
        compute_emitted_before(x, scl, am, n, num, den, m + 1, c) <==> (compute_emitted_before(
            x,
            scl,
            am,
            n,
            num,
            den,
            m,
            c,
        ) || (c == a && scl.contains(a) && fd_check_pair(am, x, a, n, num, den))) by {
        if compute_emitted_before(x, scl, am, n, num, den, m + 1, c) {
            let i = choose|i: int|
                0 <= i < m + 1 && i < x.len() && #[trigger] x[i] == c && scl.contains(c)
                    && fd_check_pair(am, x, c, n, num, den);
            if i < m {
                assert(compute_emitted_before(x, scl, am, n, num, den, m, c));
            }
        }
        if compute_emitted_before(x, scl, am, n, num, den, m, c) {
            let i = choose|i: int|
                0 <= i < m && i < x.len() && #[trigger] x[i] == c && scl.contains(c)
                    && fd_check_pair(am, x, c, n, num, den);
            assert(0 <= i < m + 1 && x[i] == c);
        }
        if c == a && scl.contains(a) && fd_check_pair(am, x, a, n, num, den) {
            assert(0 <= m < m + 1 && x[m] == c);
        }
    }
    assert(compute_emits_before(x, scl, am, n, num, den, m + 1) <==> (compute_emits_before(
        x,
        scl,
        am,
        n,
        num,
        den,
        m,
    ) || (scl.contains(a) && fd_check_pair(am, x, a, n, num, den)))) by {
        if compute_emits_before(x, scl, am, n, num, den, m + 1) {
            let i = choose|i: int|
                0 <= i < m + 1 && i < x.len() && scl.contains(#[trigger] x[i]) && fd_check_pair(
                    am,
                    x,
                    x[i],
                    n,
                    num,
                    den,
                );
            if i < m {
                assert(compute_emits_before(x, scl, am, n, num, den, m));
            }
        }
        if compute_emits_before(x, scl, am, n, num, den, m) {
            let i = choose|i: int|
                0 <= i < m && i < x.len() && scl.contains(#[trigger] x[i]) && fd_check_pair(
                    am,
                    x,
                    x[i],
                    n,
                    num,
                    den,
                );
            assert(0 <= i < m + 1 && scl.contains(x[i]));
        }
        if scl.contains(a) && fd_check_pair(am, x, a, n, num, den) {
            assert(0 <= m < m + 1 && scl.contains(x[m]));
        }
    }
    if scl.contains(a) && fd_check_pair(am, x, a, n, num, den) {
        assert forall|c: u32|
            compute_cplus_prefix(x, scl, am, n, num, den, m + 1).contains(c)
                <==> (compute_cplus_prefix(x, scl, am, n, num, den, m).contains(c) && x.contains(
                c,
            ) && c != a) by {
            if c == a {
                assert(compute_emitted_before(x, scl, am, n, num, den, m + 1, a));
            }
        }
    }
}

/// The apriori inclusion test: every immediate subset of `x` is present in
/// the level.
pub fn check_included(x: &Vec<u32>, level: &Level) -> (r: bool)
    ensures
        r == (forall|idx: int|
            0 <= idx < x@.len() ==> assoc_get(
                level.view_map(),
                remove_val(x@, #[trigger] x@[idx]),
            ) is Some),
{
    let nx = x.len();
    let mut idx: usize = 0;
    while idx < nx
        invariant
            nx == x@.len(),
            idx <= nx,
            forall|i2: int|
                0 <= i2 < idx ==> assoc_get(
                    level.view_map(),
                    remove_val(x@, #[trigger] x@[i2]),
                ) is Some,
        decreases nx - idx,
    {
        let sub = ps_remove(x, x[idx]);
        match level.find(&sub) {
            Some(_) => {},
            None => {
                return false;
            },
        }
        idx += 1;
    }
    true
}

/// Whether `x` is the sorted union of the level keys at `i` and `j`.
pub open spec fn gen_pair_key(
    lvl: Seq<(Seq<u32>, (Set<u32>, bool))>,
    i: int,
    j: int,
    x: Seq<u32>,
) -> bool {
    strictly_sorted(x) && (forall|v: u32|
        #[trigger] x.contains(v) <==> (lvl[i].0.contains(v) || lvl[j].0.contains(v)))
}

/// The apriori inclusion test over a level.
pub open spec fn apriori_ok(lvl: Seq<(Seq<u32>, (Set<u32>, bool))>, x: Seq<u32>) -> bool {
    forall|idx: int|
        0 <= idx < x.len() ==> assoc_get(lvl, remove_val(x, #[trigger] x[idx])) is Some
}

/// Whether the examined pair `(i, j)` generates the next-level key `x`.
pub open spec fn gen_candidate(
    lvl: Seq<(Seq<u32>, (Set<u32>, bool))>,
    i: int,
    j: int,
    x: Seq<u32>,
) -> bool {
    &&& 0 <= i < j < lvl.len()
    &&& same_prefix_spec(lvl[i].0, lvl[j].0)
    &&& gen_pair_key(lvl, i, j, x)
    &&& apriori_ok(lvl, x)
}

/// Generate the next lattice level: for every pair of elements sharing
/// their first `k - 1` path indices, their union joins the next level when
/// all its immediate subsets are present; its agreement bitmap is the
/// intersection of its parents' bitmaps when both are stored.
pub fn generate_next_level(level: &Level, am: &mut AgreeMap) -> (next: Level)
    requires
        level.wf(),
        old(am).wf(),
    ensures
        next.wf(),
        final(am).wf(),
        forall|k: int|
            0 <= k < next.view_map().len() ==> forall|idx: int|
                0 <= idx < (#[trigger] next.view_map()[k]).0.len() ==> assoc_get(
                    level.view_map(),
                    remove_val(next.view_map()[k].0, #[trigger] next.view_map()[k].0[idx]),
                ) is Some,
        forall|k: int|
            0 <= k < next.view_map().len() ==> (#[trigger] next.view_map()[k]).0.len() > 0
                && next.view_map()[k].1.0 == Set::<u32>::empty(),
        old(am).view_map().len() <= final(am).view_map().len(),
        forall|j: int|
            0 <= j < old(am).view_map().len() ==> final(am).view_map()[j] == old(
                am,
            ).view_map()[j],
        forall|j: int|
            old(am).view_map().len() <= j < final(am).view_map().len() ==> agree_join_ok(
                #[trigger] final(am).view_map()[j],
                final(am).view_map().take(j),
            ),
        forall|i: int, j: int, x: Seq<u32>|
            #[trigger] gen_candidate(level.view_map(), i, j, x) ==> assoc_get_level(
                next.view_map(),
                x,
            ) is Some,
        forall|k: int|
            0 <= k < next.view_map().len() && (#[trigger] next.view_map()[k]).1.1 ==> assoc_get(
                final(am).view_map(),
                next.view_map()[k].0,
            ) is Some,
{
    let mut next = Level::new();
    let nl = level.len();
    let mut i: usize = 0;
    while i < nl
        invariant
            level.wf(),
            am.wf(),
            next.wf(),
            nl == level.view_map().len(),
            i <= nl,
            forall|k: int|
                0 <= k < next.view_map().len() ==> forall|idx: int|
                    0 <= idx < (#[trigger] next.view_map()[k]).0.len() ==> assoc_get(
                        level.view_map(),
                        remove_val(next.view_map()[k].0, #[trigger] next.view_map()[k].0[idx]),
                    ) is Some,
            forall|k: int|
                0 <= k < next.view_map().len() ==> (#[trigger] next.view_map()[k]).0.len() > 0
                    && next.view_map()[k].1.0 == Set::<u32>::empty(),
            old(am).view_map().len() <= am.view_map().len(),
            forall|j: int|
                0 <= j < old(am).view_map().len() ==> am.view_map()[j] == old(am).view_map()[j],
            forall|j: int|
                old(am).view_map().len() <= j < am.view_map().len() ==> agree_join_ok(
                    #[trigger] am.view_map()[j],
                    am.view_map().take(j),
                ),
            forall|i2: int, j2: int, x: Seq<u32>|
                #[trigger] gen_candidate(level.view_map(), i2, j2, x) && crate::ind::pair_done(
                    i2,
                    j2,
                    i as int,
                    i as int + 1,
                ) ==> assoc_get_level(next.view_map(), x) is Some,
            forall|k: int|
                0 <= k < next.view_map().len() && (#[trigger] next.view_map()[k]).1.1
                    ==> assoc_get(am.view_map(), next.view_map()[k].0) is Some,
        decreases nl - i,
    {
        let mut j: usize = i + 1;
        while j < nl
            invariant
                level.wf(),
                am.wf(),
                next.wf(),
                nl == level.view_map().len(),
                i < nl,
                i < j <= nl,
                forall|k: int|
                    0 <= k < next.view_map().len() ==> forall|idx: int|
                        0 <= idx < (#[trigger] next.view_map()[k]).0.len() ==> assoc_get(
                            level.view_map(),
                            remove_val(
                                next.view_map()[k].0,
                                #[trigger] next.view_map()[k].0[idx],
                            ),
                        ) is Some,
                forall|k: int|
                    0 <= k < next.view_map().len() ==> (#[trigger] next.view_map()[k]).0.len() > 0
                        && next.view_map()[k].1.0 == Set::<u32>::empty(),
                old(am).view_map().len() <= am.view_map().len(),
                forall|j2: int|
                    0 <= j2 < old(am).view_map().len() ==> am.view_map()[j2] == old(
                        am,
                    ).view_map()[j2],
                forall|j2: int|
                    old(am).view_map().len() <= j2 < am.view_map().len() ==> agree_join_ok(
                        #[trigger] am.view_map()[j2],
                        am.view_map().take(j2),
                    ),
                forall|i2: int, j2: int, x: Seq<u32>|
                    #[trigger] gen_candidate(level.view_map(), i2, j2, x) && crate::ind::pair_done(
                        i2,
                        j2,
                        i as int,
                        j as int,
                    ) ==> assoc_get_level(next.view_map(), x) is Some,
                forall|k: int|
                    0 <= k < next.view_map().len() && (#[trigger] next.view_map()[k]).1.1
                        ==> assoc_get(am.view_map(), next.view_map()[k].0) is Some,
            decreases nl - j,
        {
            let ghost lvl = level.view_map();
            let ghost next0 = next.view_map();
            let ghost am0 = am.view_map();
            let y = level.key_at(i);
            let z = level.key_at(j);
            let same = ps_same_prefix(y, z);
            let mut included = false;
            let ghost mut xv: Seq<u32> = Seq::empty();
            if same {
                let x = ps_union(level.key_at(i), level.key_at(j));
                proof {
                    xv = x@;
                }
                included = check_included(&x, level);
                if included {
                    proof {
                        let yv = lvl[i as int].0;
                        assert(yv.contains(yv[0]));
                        assert(x@.contains(yv[0]));
                        assert(x@.len() > 0);
                    }
                    match next.find(&x) {
                        Some(_) => {},
                        None => {
                            let ghost am_before = am.view_map();
                            let ghost ky = lvl[i as int].0;
                            let ghost kz = lvl[j as int].0;
                            let mut valid = false;
                            let by = am.get(level.key_at(i));
                            let bz = am.get(level.key_at(j));
                            match (by, bz) {
                                (Some(bmy), Some(bmz)) => {
                                    let ghost sy = bitmap_model(*bmy);
                                    let ghost sz = bitmap_model(*bmz);
                                    let joined = bm_and(bmy, bmz);
                                    match am.get(&x) {
                                        Some(_) => {
                                            proof {
                                                assert(assoc_get(am.view_map(), x@) is Some);
                                            }
                                        },
                                        None => {
                                            proof {
                                                assert(assoc_get(am_before, ky) == Some(sy));
                                                assert(assoc_get(am_before, kz) == Some(sz));
                                                assert(x@.to_set() =~= ky.to_set().union(
                                                    kz.to_set(),
                                                ));
                                                assert(bitmap_model(joined) == sy.intersect(sz));
                                                assert(agree_join_ok(
                                                    (x@, bitmap_model(joined)),
                                                    am_before,
                                                ));
                                            }
                                            am.insert(ps_clone(&x), joined);
                                            proof {
                                                assert(am.view_map().take(am_before.len() as int)
                                                    =~= am_before);
                                                assert forall|j2: int|
                                                    0 <= j2 <= am_before.len() implies #[trigger]
                                                am.view_map().take(j2) =~= am_before.take(j2) by {
                                                }
                                                assert(agree_join_ok(
                                                    am.view_map()[am_before.len() as int],
                                                    am.view_map().take(am_before.len() as int),
                                                ));
                                                lemma_assoc_get_push_new(
                                                    am_before,
                                                    am.view_map()[am_before.len() as int],
                                                    x@,
                                                );
                                                assert(am.view_map() =~= am_before.push(
                                                    am.view_map()[am_before.len() as int],
                                                ));
                                            }
                                        },
                                    }
                                    valid = true;
                                },
                                _ => {},
                            }
                            proof {
                                if valid {
                                    assert(assoc_get(am.view_map(), x@) is Some);
                                }
                            }
                            next.insert(x, bm_new(), valid);
                            proof {
                                lemma_assoc_get_push_new(
                                    next0,
                                    next.view_map()[next0.len() as int],
                                    xv,
                                );
                            }
                        },
                    }
                }
            }
            proof {
                assert forall|i2: int, j2: int, x2: Seq<u32>|
                    #[trigger] gen_candidate(lvl, i2, j2, x2) && crate::ind::pair_done(
                        i2,
                        j2,
                        i as int,
                        j as int + 1,
                    ) implies assoc_get_level(next.view_map(), x2) is Some by {
                    if crate::ind::pair_done(i2, j2, i as int, j as int) {
                        assert(assoc_get_level(next0, x2) is Some);
                        if next.view_map().len() > next0.len() {
                            lemma_assoc_get_push(
                                next0,
                                next.view_map()[next0.len() as int],
                                x2,
                            );
                            assert(next.view_map() =~= next0.push(
                                next.view_map()[next0.len() as int],
                            ));
                        }
                    } else {
                        assert(i2 == i as int && j2 == j as int);
                        assert(same_prefix_spec(lvl[i2].0, lvl[j2].0));
                        assert(same);
                        lemma_sorted_unique(x2, xv);
                        assert(x2 == xv);
                        assert(included);
                        assert(assoc_get_level(next.view_map(), xv) is Some);
                        if next.view_map().len() > next0.len() {
                        } else {
                        }
                    }
                }
                assert forall|k: int|
                    0 <= k < next.view_map().len() && (#[trigger] next.view_map()[k]).1.1 implies
                assoc_get(am.view_map(), next.view_map()[k].0) is Some by {
                    if k < next0.len() {
                        assert(next0[k] == next.view_map()[k]);
                        assert(assoc_get(am0, next0[k].0) is Some);
                        if am.view_map().len() > am0.len() {
                            lemma_assoc_get_push(am0, am.view_map()[am0.len() as int], next0[k].0);
                            assert(am.view_map() =~= am0.push(am.view_map()[am0.len() as int]));
                        }
                    }
                }
            }
            j += 1;
        }
        i += 1;
    }
    next
}

/// A freshly stored agreement entry joins two already-stored subsets: its
/// key unites their members and its set is the intersection of theirs.
pub open spec fn agree_join_ok(e: (Seq<u32>, Set<u32>), am: Seq<(Seq<u32>, Set<u32>)>) -> bool {
    exists|ky: Seq<u32>, kz: Seq<u32>|
        {
            &&& #[trigger] assoc_get(am, ky) is Some
            &&& #[trigger] assoc_get(am, kz) is Some
            &&& e.0.to_set() == ky.to_set().union(kz.to_set())
            &&& e.1 == assoc_get(am, ky)->Some_0.intersect(assoc_get(am, kz)->Some_0)
        }
}

/// Two subsets of equal size that differ in their last element alone.
pub open spec fn same_prefix_spec(y: Seq<u32>, z: Seq<u32>) -> bool {
    y.len() == z.len() && y.len() > 0 && y.last() != z.last() && forall|k: int|
        0 <= k < y.len() - 1 ==> y[k] == z[k]
}

/// Whether two subsets of equal size differ only in their last element.
pub fn ps_same_prefix(y: &Vec<u32>, z: &Vec<u32>) -> (r: bool)
    ensures
        r == same_prefix_spec(y@, z@),
{
    if y.len() != z.len() || y.len() == 0 {
        return false;
    }
    let n = y.len();
    if y[n - 1] == z[n - 1] {
        return false;
    }
    let mut k: usize = 0;
    while k < n - 1
        invariant
            n == y@.len() == z@.len(),
            n > 0,
            y@.last() != z@.last(),
            k <= n - 1,
            forall|k2: int| 0 <= k2 < k ==> y@[k2] == z@[k2],
        decreases n - 1 - k,
    {
        if y[k] != z[k] {
            proof {
                assert(!same_prefix_spec(y@, z@)) by {
                    assert(y@[k as int] != z@[k as int]);
                }
            }
            return false;
        }
        k += 1;
    }
    true
}


/// Whether a key-rule emission `x -> a` is justified by the level: the
/// agreement set of `x` passes the greedy test and `a` survives in the
/// candidate set of every `(x + a) \ {b}`.
pub open spec fn prune_emitted_ok(
    x: Seq<u32>,
    a: u32,
    lvl: Seq<(Seq<u32>, (Set<u32>, bool))>,
    am: Seq<(Seq<u32>, Set<u32>)>,
    n: u32,
    num: u64,
    den: u64,
) -> bool {
    &&& (match assoc_get(am, x) {
        Some(agx) => fd_holds(agx, n, num, den),
        None => false,
    })
    &&& exists|xa: Seq<u32>|
        {
            &&& strictly_sorted(xa)
            &&& (forall|v: u32| #[trigger] xa.contains(v) <==> (x.contains(v) || v == a))
            &&& (forall|bi: int|
                0 <= bi < x.len() ==> (match assoc_get(lvl, remove_val(xa, #[trigger] x[bi])) {
                    Some(e) => e.0.contains(a),
                    None => false,
                }))
        }
}


/// `x` with `a` inserted at its sorted position.
pub open spec fn insert_sorted(x: Seq<u32>, a: u32) -> Seq<u32>
    decreases x.len(),
{
    if x.len() == 0 {
        seq![a]
    } else if a < x[0] {
        seq![a] + x
    } else if a == x[0] {
        x
    } else {
        seq![x[0]] + insert_sorted(x.skip(1), a)
    }
}

/// Order and membership of `insert_sorted`.
pub proof fn lemma_insert_sorted(x: Seq<u32>, a: u32)
    requires
        strictly_sorted(x),
    ensures
        strictly_sorted(insert_sorted(x, a)),
        forall|v: u32| insert_sorted(x, a).contains(v) <==> (x.contains(v) || v == a),
    decreases x.len(),
{
    let r = insert_sorted(x, a);
    if x.len() == 0 {
        assert forall|v: u32| r.contains(v) <==> (x.contains(v) || v == a) by {
            if v == a {
                assert(r[0] == a);
            }
            if r.contains(v) {
                let k = choose|k: int| 0 <= k < r.len() && r[k] == v;
                assert(v == a);
            }
        }
    } else if a < x[0] {
        assert forall|k1: int, k2: int| 0 <= k1 < k2 < r.len() implies r[k1] < r[k2] by {
            if k1 > 0 {
                assert(r[k1] == x[k1 - 1] && r[k2] == x[k2 - 1]);
            } else {
                assert(r[k2] == x[k2 - 1]);
                assert(x[0] <= x[k2 - 1]);
            }
        }
        assert forall|v: u32| r.contains(v) <==> (x.contains(v) || v == a) by {
            if r.contains(v) {
                let k = choose|k: int| 0 <= k < r.len() && r[k] == v;
                if k > 0 {
                    assert(x[k - 1] == v);
                }
            }
            if x.contains(v) {
                let k = choose|k: int| 0 <= k < x.len() && x[k] == v;
                assert(r[k + 1] == v);
            }
            if v == a {
                assert(r[0] == v);
            }
        }
    } else if a == x[0] {
    } else {
        assert(forall|k1: int, k2: int|
            0 <= k1 < k2 < x.skip(1).len() ==> x.skip(1)[k1] < x.skip(1)[k2]);
        lemma_insert_sorted(x.skip(1), a);
        let r1 = insert_sorted(x.skip(1), a);
        assert(forall|v: u32| r1.contains(v) <==> (x.skip(1).contains(v) || v == a));
        assert(r1.contains(a));
        assert forall|k1: int, k2: int| 0 <= k1 < k2 < r.len() implies r[k1] < r[k2] by {
            if k1 > 0 {
                assert(r[k1] == r1[k1 - 1] && r[k2] == r1[k2 - 1]);
            } else {
                assert(r[k2] == r1[k2 - 1]);
                assert(r1.contains(r1[k2 - 1]));
                if x.skip(1).contains(r1[k2 - 1]) {
                    let k3 = choose|k3: int|
                        0 <= k3 < x.skip(1).len() && x.skip(1)[k3] == r1[k2 - 1];
                    assert(x[0] < x[k3 + 1]);
                }
            }
        }
        assert forall|v: u32| r.contains(v) <==> (x.contains(v) || v == a) by {
            if r.contains(v) {
                let k = choose|k: int| 0 <= k < r.len() && r[k] == v;
                if k > 0 {
                    assert(r1[k - 1] == v);
                    assert(r1.contains(v));
                    if x.skip(1).contains(v) {
                        let k3 = choose|k3: int| 0 <= k3 < x.skip(1).len() && x.skip(1)[k3] == v;
                        assert(x[k3 + 1] == v);
                    }
                }
            }
            if x.contains(v) {
                let k = choose|k: int| 0 <= k < x.len() && x[k] == v;
                if k > 0 {
                    assert(x.skip(1)[k - 1] == v);
                    assert(x.skip(1).contains(v));
                    assert(r1.contains(v));
                    let k3 = choose|k3: int| 0 <= k3 < r1.len() && r1[k3] == v;
                    assert(r[k3 + 1] == v);
                } else {
                    assert(r[0] == v);
                }
            }
            if v == a {
                assert(r1.contains(v));
                let k3 = choose|k3: int| 0 <= k3 < r1.len() && r1[k3] == v;
                assert(r[k3 + 1] == v);
            }
        }
    }
}

/// Whether candidate `a` survives the candidate sets of every
/// `(X + {a}) \ {B}` in the level.
pub open spec fn prune_rule_pair_ok(
    x: Seq<u32>,
    a: u32,
    lvl: Seq<(Seq<u32>, (Set<u32>, bool))>,
) -> bool {
    forall|bi: int|
        0 <= bi < x.len() ==> (match assoc_get(
            lvl,
            remove_val(insert_sorted(x, a), #[trigger] x[bi]),
        ) {
            Some(e) => e.0.contains(a),
            None => false,
        })
}

/// Whether an element qualifies for key rules: still valid, with its own
/// agreement set stored and passing the greedy test.
pub open spec fn prune_key_test(
    e: (Seq<u32>, (Set<u32>, bool)),
    am: Seq<(Seq<u32>, Set<u32>)>,
    n: u32,
    num: u64,
    den: u64,
) -> bool {
    e.1.1 && (match assoc_get(am, e.0) {
        Some(agx) => fd_holds(agx, n, num, den),
        None => false,
    })
}

/// Whether the key rule `X -> a` is emitted for an element.
pub open spec fn prune_emits(
    e: (Seq<u32>, (Set<u32>, bool)),
    lvl: Seq<(Seq<u32>, (Set<u32>, bool))>,
    am: Seq<(Seq<u32>, Set<u32>)>,
    n: u32,
    num: u64,
    den: u64,
    a: u32,
) -> bool {
    prune_key_test(e, am, n, num, den) && e.1.0.contains(a) && !e.0.contains(a)
        && prune_rule_pair_ok(e.0, a, lvl)
}

/// One element after pruning: an element that emits some key rule keeps
/// only the candidates inside its subset and leaves active search; all
/// others are untouched.
pub open spec fn prune_entry_model(
    e: (Seq<u32>, (Set<u32>, bool)),
    lvl: Seq<(Seq<u32>, (Set<u32>, bool))>,
    am: Seq<(Seq<u32>, Set<u32>)>,
    n: u32,
    num: u64,
    den: u64,
) -> (Seq<u32>, (Set<u32>, bool)) {
    if exists|a: u32| prune_emits(e, lvl, am, n, num, den, a) {
        (e.0, (e.1.0.intersect(e.0.to_set()), false))
    } else {
        e
    }
}

/// The pruned level: exactly the elements with a nonempty candidate set
/// survive, in order, each transformed by `prune_entry_model`.
pub open spec fn prune_model_level(
    rem: Seq<(Seq<u32>, (Set<u32>, bool))>,
    lvl: Seq<(Seq<u32>, (Set<u32>, bool))>,
    am: Seq<(Seq<u32>, Set<u32>)>,
    n: u32,
    num: u64,
    den: u64,
) -> Seq<(Seq<u32>, (Set<u32>, bool))>
    decreases rem.len(),
{
    if rem.len() == 0 {
        Seq::empty()
    } else {
        (if rem[0].1.0 != Set::<u32>::empty() {
            seq![prune_entry_model(rem[0], lvl, am, n, num, den)]
        } else {
            Seq::empty()
        }) + prune_model_level(rem.skip(1), lvl, am, n, num, den)
    }
}

/// A pruned entry corresponds to one of the first `k` old entries, with a
/// candidate set that only shrank and a validity flag that was not raised.
pub open spec fn pruned_entry_ok(
    e: (Seq<u32>, (Set<u32>, bool)),
    lvl0: Seq<(Seq<u32>, (Set<u32>, bool))>,
    k: int,
) -> bool {
    exists|k3: int|
        0 <= k3 < k && e.0 == (#[trigger] lvl0[k3]).0 && e.1.0.subset_of(lvl0[k3].1.0) && (e.1.1
            ==> lvl0[k3].1.1)
}

/// The correspondence is monotone in the scanned prefix.
pub proof fn lemma_pruned_entry_mono(
    e: (Seq<u32>, (Set<u32>, bool)),
    lvl0: Seq<(Seq<u32>, (Set<u32>, bool))>,
    k1: int,
    k2: int,
)
    requires
        pruned_entry_ok(e, lvl0, k1),
        k1 <= k2,
    ensures
        pruned_entry_ok(e, lvl0, k2),
{
    let k3 = choose|k3: int|
        0 <= k3 < k1 && e.0 == (#[trigger] lvl0[k3]).0 && e.1.0.subset_of(lvl0[k3].1.0) && (e.1.1
            ==> lvl0[k3].1.1);
    assert(0 <= k3 < k2 && e.0 == lvl0[k3].0 && e.1.0.subset_of(lvl0[k3].1.0) && (e.1.1
        ==> lvl0[k3].1.1));
}

/// Prune a level: elements with an empty candidate set leave it; a valid
/// element whose own agreement set passes the greedy test emits a key rule
/// `X -> A` for every surviving outside candidate `A`, keeps only the
/// candidates inside `X`, and drops out of active search.
/// Whether some old element keyed `x2` emits the key rule `x2 -> a2`.
pub open spec fn prune_emits_key(
    lvl: Seq<(Seq<u32>, (Set<u32>, bool))>,
    am: Seq<(Seq<u32>, Set<u32>)>,
    n: u32,
    num: u64,
    den: u64,
    x2: Seq<u32>,
    a2: u32,
) -> bool {
    exists|k: int|
        0 <= k < lvl.len() && (#[trigger] lvl[k]).0 == x2 && lvl[k].1.0 != Set::<u32>::empty()
            && prune_emits(lvl[k], lvl, am, n, num, den, a2)
}

/// Prune a level: elements with an empty candidate set leave it; a valid
/// element whose own agreement set passes the greedy test emits a key rule
/// `X -> A` for every surviving outside candidate `A`, keeps only the
/// candidates inside `X`, and drops out of active search.  The final level
/// and the emitted rules are fixed exactly by `prune_model_level` and
/// `prune_emits_key`.
pub fn prune(level1: &mut Level, am: &AgreeMap, n: u32, tau_num: u64, tau_den: u64) -> (deps: Vec<
    (Vec<u32>, u32),
>)
    requires
        old(level1).wf(),
        0 < tau_den,
        tau_num <= tau_den,
    ensures
        final(level1).wf(),
        final(level1).view_map() == prune_model_level(
            old(level1).view_map(),
            old(level1).view_map(),
            am.view_map(),
            n,
            tau_num,
            tau_den,
        ),
        forall|x2: Seq<u32>, a2: u32|
            #[trigger] dep_views(deps@).contains((x2, a2)) <==> prune_emits_key(
                old(level1).view_map(),
                am.view_map(),
                n,
                tau_num,
                tau_den,
                x2,
                a2,
            ),
        forall|t1: int, t2: int|
            0 <= t1 < t2 < deps@.len() ==> #[trigger] dep_views(deps@)[t1] != #[trigger] dep_views(
                deps@,
            )[t2],
        forall|k2: int|
            0 <= k2 < final(level1).view_map().len() ==> pruned_entry_ok(
                #[trigger] final(level1).view_map()[k2],
                old(level1).view_map(),
                old(level1).view_map().len() as int,
            ),
        forall|j: int|
            0 <= j < deps@.len() ==> prune_emitted_ok(
                (#[trigger] deps@[j]).0@,
                deps@[j].1,
                old(level1).view_map(),
                am.view_map(),
                n,
                tau_num,
                tau_den,
            ),
{
    let ghost lvl0 = level1.view_map();
    let ghost amv = am.view_map();
    let mut deps: Vec<(Vec<u32>, u32)> = Vec::new();
    let mut next = Level::new();
    let nl = level1.len();
    let mut k: usize = 0;
    proof {
        assert(lvl0.skip(0) =~= lvl0);
        assert(dep_views(deps@) =~= Seq::<(Seq<u32>, u32)>::empty());
    }
    while k < nl
        invariant
            level1.wf(),
            next.wf(),
            0 < tau_den,
            tau_num <= tau_den,
            amv == am.view_map(),
            lvl0 == level1.view_map(),
            nl == lvl0.len(),
            k <= nl,
            prune_model_level(lvl0, lvl0, amv, n, tau_num, tau_den) == next.view_map()
                + prune_model_level(lvl0.skip(k as int), lvl0, amv, n, tau_num, tau_den),
            forall|x2: Seq<u32>, a2: u32|
                #[trigger] dep_views(deps@).contains((x2, a2)) <==> exists|k2: int|
                    0 <= k2 < k && (#[trigger] lvl0[k2]).0 == x2 && lvl0[k2].1.0 != Set::<
                        u32,
                    >::empty() && prune_emits(lvl0[k2], lvl0, amv, n, tau_num, tau_den, a2),
            forall|t1: int, t2: int|
                0 <= t1 < t2 < deps@.len() ==> #[trigger] dep_views(deps@)[t1] != #[trigger]
                dep_views(deps@)[t2],
            forall|k2: int|
                0 <= k2 < next.view_map().len() ==> pruned_entry_ok(
                    #[trigger] next.view_map()[k2],
                    lvl0,
                    k as int,
                ),
            forall|j: int|
                0 <= j < deps@.len() ==> prune_emitted_ok(
                    (#[trigger] deps@[j]).0@,
                    deps@[j].1,
                    lvl0,
                    amv,
                    n,
                    tau_num,
                    tau_den,
                ),
        decreases nl - k,
    {
        let ghost e = lvl0[k as int];
        proof {
            assert(lvl0.skip(k as int)[0] == e);
            assert(lvl0.skip(k as int).skip(1) =~= lvl0.skip(k as int + 1));
        }
        if !bm_is_empty(level1.cplus_at(k)) {
            let key = ps_clone(level1.key_at(k));
            let ghost x = e.0;
            let mut newc = bm_clone(level1.cplus_at(k));
            let mut keep_valid = level1.valid_at(k);
            let ghost dv0 = dep_views(deps@);
            let mut gate = false;
            if level1.valid_at(k) {
                match am.get(&key) {
                    Some(agx) => {
                        if check_bitmap(agx, n, tau_num, tau_den) {
                            gate = true;
                        }
                    },
                    None => {},
                }
            }
            proof {
                assert(gate == prune_key_test(e, amv, n, tau_num, tau_den));
                assert(strictly_sorted(x));
            }
            if gate {
                let xbm = ps_to_bitmap(&key);
                let outside = bm_sub(level1.cplus_at(k), &xbm);
                let cands = bm_sorted_values(&outside);
                proof {
                    assert(forall|v: u32|
                        cands@.contains(v) <==> (e.1.0.contains(v) && !x.contains(v)));
                    assert(cands@.take(0) =~= Seq::<u32>::empty());
                }
                let nc = cands.len();
                let mut ci: usize = 0;
                while ci < nc
                    invariant
                        level1.wf(),
                        next.wf(),
                        0 < tau_den,
                        tau_num <= tau_den,
                        amv == am.view_map(),
                        lvl0 == level1.view_map(),
                        nl == lvl0.len(),
                        k < nl,
                        e == lvl0[k as int],
                        e.1.0 != Set::<u32>::empty(),
                        x == e.0,
                        key@ == x,
                        strictly_sorted(x),
                        prune_key_test(e, amv, n, tau_num, tau_den),
                        nc == cands@.len(),
                        ci <= nc,
                        forall|k1: int, k2: int|
                            0 <= k1 < k2 < cands@.len() ==> cands@[k1] < cands@[k2],
                        forall|v: u32|
                            #[trigger] cands@.contains(v) <==> (e.1.0.contains(v) && !x.contains(
                                v,
                            )),
                        forall|v: u32|
                            #[trigger] bitmap_model(xbm).contains(v) <==> x.contains(v),
                        (if exists|a2: u32|
                            cands@.take(ci as int).contains(a2) && prune_rule_pair_ok(
                                x,
                                a2,
                                lvl0,
                            ) {
                            bitmap_model(newc) == e.1.0.intersect(x.to_set()) && !keep_valid
                        } else {
                            bitmap_model(newc) == e.1.0 && keep_valid == e.1.1
                        }),
                        bitmap_model(newc).finite(),
                        forall|x2: Seq<u32>, a2: u32|
                            #[trigger] dep_views(deps@).contains((x2, a2)) <==> ((exists|k2: int|
                                0 <= k2 < k && (#[trigger] lvl0[k2]).0 == x2 && lvl0[k2].1.0
                                    != Set::<u32>::empty() && prune_emits(
                                    lvl0[k2],
                                    lvl0,
                                    amv,
                                    n,
                                    tau_num,
                                    tau_den,
                                    a2,
                                )) || (x2 == x && cands@.take(ci as int).contains(a2)
                                && prune_rule_pair_ok(x, a2, lvl0))),
                        forall|t1: int, t2: int|
                            0 <= t1 < t2 < deps@.len() ==> #[trigger] dep_views(deps@)[t1]
                                != #[trigger] dep_views(deps@)[t2],
                        forall|j: int|
                            0 <= j < deps@.len() ==> prune_emitted_ok(
                                (#[trigger] deps@[j]).0@,
                                deps@[j].1,
                                lvl0,
                                amv,
                                n,
                                tau_num,
                                tau_den,
                            ),
                    decreases nc - ci,
                {
                    let a = cands[ci];
                    let ghost dvb = dep_views(deps@);
                    proof {
                        assert(cands@.contains(a)) by {
                            assert(cands@[ci as int] == a);
                        }
                        assert(!cands@.take(ci as int).contains(a)) by {
                            if cands@.take(ci as int).contains(a) {
                                let t = choose|t: int|
                                    0 <= t < ci && #[trigger] cands@.take(ci as int)[t] == a;
                                assert(cands@[t] < cands@[ci as int]);
                            }
                        }
                    }
                    let mut single: Vec<u32> = Vec::new();
                    single.push(a);
                    proof {
                        assert(strictly_sorted(single@));
                        assert(forall|v: u32| single@.contains(v) <==> v == a) by {
                            assert(single@[0] == a);
                        }
                    }
                    let xa = ps_union(&key, &single);
                    proof {
                        lemma_insert_sorted(x, a);
                        lemma_sorted_unique(xa@, insert_sorted(x, a));
                    }
                    let nx = key.len();
                    let mut all_in = true;
                    let mut bi: usize = 0;
                    while bi < nx
                        invariant
                            level1.wf(),
                            lvl0 == level1.view_map(),
                            nx == key@.len(),
                            bi <= nx,
                            key@ == x,
                            xa@ == insert_sorted(x, a),
                            all_in == (forall|b2: int|
                                0 <= b2 < bi ==> (match assoc_get(
                                    lvl0,
                                    remove_val(insert_sorted(x, a), #[trigger] x[b2]),
                                ) {
                                    Some(e2) => e2.0.contains(a),
                                    None => false,
                                })),
                        decreases nx - bi,
                    {
                        let ghost was = all_in;
                        let key2 = ps_remove(&xa, key[bi]);
                        match level1.find(&key2) {
                            Some(pos) => {
                                if !bm_contains(level1.cplus_at(pos), a) {
                                    all_in = false;
                                }
                            },
                            None => {
                                all_in = false;
                            },
                        }
                        proof {
                            let bb = bi as int;
                            if !was {
                                let b2 = choose|b2: int|
                                    0 <= b2 < bb && !(match assoc_get(
                                        lvl0,
                                        remove_val(insert_sorted(x, a), #[trigger] x[b2]),
                                    ) {
                                        Some(e2) => e2.0.contains(a),
                                        None => false,
                                    });
                                assert(!all_in);
                            }
                        }
                        bi += 1;
                    }
                    if all_in {
                        proof {
                            assert(prune_rule_pair_ok(x, a, lvl0));
                            assert(cands@.contains(a)) by {
                                assert(cands@[ci as int] == a);
                            }
                            assert(e.1.0.contains(a) && !x.contains(a));
                            assert(prune_emits(e, lvl0, amv, n, tau_num, tau_den, a));
                            assert(prune_emitted_ok(x, a, lvl0, amv, n, tau_num, tau_den)) by {
                                assert(strictly_sorted(xa@) && (forall|v: u32|
                                    #[trigger] xa@.contains(v) <==> (x.contains(v) || v == a)) && (
                                forall|b2: int|
                                    0 <= b2 < x.len() ==> (match assoc_get(
                                        lvl0,
                                        remove_val(xa@, #[trigger] x[b2]),
                                    ) {
                                        Some(e2) => e2.0.contains(a),
                                        None => false,
                                    })));
                            }
                        }
                        deps.push((ps_clone(&key), a));
                        let shrunk = bm_and(&newc, &xbm);
                        proof {
                            assert(dep_views(deps@) =~= dvb.push((x, a)));
                            assert forall|p: (Seq<u32>, u32)|
                                dep_views(deps@).contains(p) <==> (dvb.contains(p) || p == (
                                    x,
                                    a,
                                )) by {
                                lemma_push_contains_dep(dvb, (x, a), p);
                            }
                            assert(!dvb.contains((x, a))) by {
                                if dvb.contains((x, a)) {
                                    if exists|k2: int|
                                        0 <= k2 < k && (#[trigger] lvl0[k2]).0 == x
                                            && lvl0[k2].1.0 != Set::<u32>::empty() && prune_emits(
                                            lvl0[k2],
                                            lvl0,
                                            amv,
                                            n,
                                            tau_num,
                                            tau_den,
                                            a,
                                        ) {
                                        let k2 = choose|k2: int|
                                            0 <= k2 < k && (#[trigger] lvl0[k2]).0 == x
                                                && lvl0[k2].1.0 != Set::<u32>::empty()
                                                && prune_emits(
                                                lvl0[k2],
                                                lvl0,
                                                amv,
                                                n,
                                                tau_num,
                                                tau_den,
                                                a,
                                            );
                                        assert(lvl0[k2].0 != lvl0[k as int].0);
                                    }
                                }
                            }
                            assert forall|t1: int, t2: int|
                                0 <= t1 < t2 < deps@.len() implies #[trigger] dep_views(
                                deps@,
                            )[t1] != #[trigger] dep_views(deps@)[t2] by {
                                if t2 == deps@.len() - 1 {
                                    assert(dep_views(deps@)[t1] == dvb[t1]);
                                    if dvb[t1] == (x, a) {
                                        assert(dvb.contains((x, a)));
                                    }
                                } else {
                                    assert(dep_views(deps@)[t1] == dvb[t1]);
                                    assert(dep_views(deps@)[t2] == dvb[t2]);
                                }
                            }
                            assert(cands@.take(ci as int + 1) =~= cands@.take(ci as int).push(a));
                            assert forall|a2: u32|
                                cands@.take(ci as int + 1).contains(a2) <==> (cands@.take(
                                    ci as int,
                                ).contains(a2) || a2 == a) by {
                                lemma_push_contains_u32(cands@.take(ci as int), a, a2);
                            }
                        }
                        newc = shrunk;
                        keep_valid = false;
                        proof {
                            assert(bitmap_model(newc) =~= e.1.0.intersect(x.to_set()));
                            assert(cands@.take(ci as int + 1).contains(a));
                        }
                    } else {
                        proof {
                            assert(!prune_rule_pair_ok(x, a, lvl0));
                            assert(cands@.take(ci as int + 1) =~= cands@.take(ci as int).push(a));
                            assert forall|a2: u32|
                                cands@.take(ci as int + 1).contains(a2) <==> (cands@.take(
                                    ci as int,
                                ).contains(a2) || a2 == a) by {
                                lemma_push_contains_u32(cands@.take(ci as int), a, a2);
                            }
                        }
                    }
                    proof {
                        assert forall|x2: Seq<u32>, a2: u32|
                            #[trigger] dep_views(deps@).contains((x2, a2)) <==> ((exists|k2: int|
                                0 <= k2 < k && (#[trigger] lvl0[k2]).0 == x2 && lvl0[k2].1.0
                                    != Set::<u32>::empty() && prune_emits(
                                    lvl0[k2],
                                    lvl0,
                                    amv,
                                    n,
                                    tau_num,
                                    tau_den,
                                    a2,
                                )) || (x2 == x && cands@.take(ci as int + 1).contains(a2)
                                && prune_rule_pair_ok(x, a2, lvl0))) by {
                            if all_in {
                                assert(dep_views(deps@).contains((x2, a2)) <==> (dvb.contains(
                                    (x2, a2),
                                ) || (x2, a2) == ((x, a))));
                            } else {
                                assert(dep_views(deps@) == dvb);
                            }
                            if x2 == x && cands@.take(ci as int + 1).contains(a2)
                                && prune_rule_pair_ok(x, a2, lvl0) && a2 != a {
                                assert(cands@.take(ci as int).contains(a2));
                            }
                        }
                    }
                    ci += 1;
                }
                proof {
                    assert(cands@.take(nc as int) =~= cands@);
                    assert((exists|a2: u32|
                        cands@.contains(a2) && prune_rule_pair_ok(x, a2, lvl0)) <==> (exists|
                        a2: u32,
                    |
                        prune_emits(e, lvl0, amv, n, tau_num, tau_den, a2))) by {
                        if exists|a2: u32| cands@.contains(a2) && prune_rule_pair_ok(x, a2, lvl0) {
                            let a2 = choose|a2: u32|
                                cands@.contains(a2) && prune_rule_pair_ok(x, a2, lvl0);
                            assert(prune_emits(e, lvl0, amv, n, tau_num, tau_den, a2));
                        }
                        if exists|a2: u32| prune_emits(e, lvl0, amv, n, tau_num, tau_den, a2) {
                            let a2 = choose|a2: u32|
                                prune_emits(e, lvl0, amv, n, tau_num, tau_den, a2);
                            assert(cands@.contains(a2) && prune_rule_pair_ok(x, a2, lvl0));
                        }
                    }
                }
            } else {
                proof {
                    assert forall|a2: u32|
                        !prune_emits(e, lvl0, amv, n, tau_num, tau_den, a2) by {}
                }
            }
            proof {
                assert forall|k2: int|
                    0 <= k2 < next.view_map().len() implies (#[trigger] next.view_map()[k2]).0
                    != key@ by {
                    assert(pruned_entry_ok(next.view_map()[k2], lvl0, k as int));
                    let k3 = choose|k3: int|
                        0 <= k3 < k && next.view_map()[k2].0 == (#[trigger] lvl0[k3]).0
                            && next.view_map()[k2].1.0.subset_of(lvl0[k3].1.0) && (
                        next.view_map()[k2].1.1 ==> lvl0[k3].1.1);
                    assert(lvl0[k3].0 != lvl0[k as int].0);
                }
                lemma_assoc_get_absent_level(next.view_map(), key@);
            }
            let ghost next_before = next.view_map();
            next.insert(key, newc, keep_valid);
            proof {
                assert(next.view_map()[next_before.len() as int] == prune_entry_model(
                    e,
                    lvl0,
                    amv,
                    n,
                    tau_num,
                    tau_den,
                ));
                assert(next.view_map() =~= next_before.push(
                    prune_entry_model(e, lvl0, amv, n, tau_num, tau_den),
                ));
                assert(next_before + (seq![
                    prune_entry_model(e, lvl0, amv, n, tau_num, tau_den),
                ] + prune_model_level(lvl0.skip(k as int + 1), lvl0, amv, n, tau_num, tau_den))
                    =~= next.view_map() + prune_model_level(
                    lvl0.skip(k as int + 1),
                    lvl0,
                    amv,
                    n,
                    tau_num,
                    tau_den,
                ));
                assert forall|k2: int|
                    0 <= k2 < next.view_map().len() implies pruned_entry_ok(
                    #[trigger] next.view_map()[k2],
                    lvl0,
                    k as int + 1,
                ) by {
                    if k2 < next_before.len() {
                        lemma_pruned_entry_mono(next.view_map()[k2], lvl0, k as int, k as int + 1);
                    } else {
                        let ki = k as int;
                        assert(0 <= ki < ki + 1 && next.view_map()[k2].0 == lvl0[ki].0
                            && next.view_map()[k2].1.0.subset_of(lvl0[ki].1.0) && (
                        next.view_map()[k2].1.1 ==> lvl0[ki].1.1));
                    }
                }
            }
        } else {
            proof {
                assert(e.1.0 == Set::<u32>::empty());
                assert forall|a2: u32|
                    !prune_emits(e, lvl0, amv, n, tau_num, tau_den, a2) by {}
                assert(next.view_map() + prune_model_level(
                    lvl0.skip(k as int),
                    lvl0,
                    amv,
                    n,
                    tau_num,
                    tau_den,
                ) =~= next.view_map() + (Seq::<(Seq<u32>, (Set<u32>, bool))>::empty()
                    + prune_model_level(lvl0.skip(k as int + 1), lvl0, amv, n, tau_num, tau_den)));
                assert forall|k2: int|
                    0 <= k2 < next.view_map().len() implies pruned_entry_ok(
                    #[trigger] next.view_map()[k2],
                    lvl0,
                    k as int + 1,
                ) by {
                    lemma_pruned_entry_mono(next.view_map()[k2], lvl0, k as int, k as int + 1);
                }
            }
        }
        k += 1;
    }
    proof {
        assert(prune_model_level(lvl0.skip(nl as int), lvl0, amv, n, tau_num, tau_den) =~= Seq::<
            (Seq<u32>, (Set<u32>, bool)),
        >::empty());
        assert(next.view_map() + prune_model_level(
            lvl0.skip(nl as int),
            lvl0,
            amv,
            n,
            tau_num,
            tau_den,
        ) =~= next.view_map());
        assert forall|k2: int|
            0 <= k2 < next.view_map().len() implies pruned_entry_ok(
            #[trigger] next.view_map()[k2],
            lvl0,
            lvl0.len() as int,
        ) by {
            lemma_pruned_entry_mono(next.view_map()[k2], lvl0, nl as int, lvl0.len() as int);
        }
    }
    *level1 = next;
    deps
}

/// A dependency list extended by one pair contains exactly the old pairs
/// and the new one.
proof fn lemma_push_contains_dep(s: Seq<(Seq<u32>, u32)>, e: (Seq<u32>, u32), p: (Seq<u32>, u32))
    ensures
        s.push(e).contains(p) <==> (s.contains(p) || p == e),
{
    if s.contains(p) {
        let t = choose|t: int| 0 <= t < s.len() && s[t] == p;
        assert(s.push(e)[t] == p);
    }
    if p == e {
        assert(s.push(e)[s.len() as int] == p);
    }
    if s.push(e).contains(p) {
        let t = choose|t: int| 0 <= t < s.push(e).len() && s.push(e)[t] == p;
        if t < s.len() {
            assert(s[t] == p);
        }
    }
}

/// A value list extended by one element contains exactly the old values and
/// the new one.
proof fn lemma_push_contains_u32(s: Seq<u32>, e: u32, v: u32)
    ensures
        s.push(e).contains(v) <==> (s.contains(v) || v == e),
{
    if s.contains(v) {
        let t = choose|t: int| 0 <= t < s.len() && s[t] == v;
        assert(s.push(e)[t] == v);
    }
    if v == e {
        assert(s.push(e)[s.len() as int] == v);
    }
    if s.push(e).contains(v) {
        let t = choose|t: int| 0 <= t < s.push(e).len() && s.push(e)[t] == v;
        if t < s.len() {
            assert(s[t] == v);
        }
    }
}

/// With no entry keyed `k`, a level lookup returns nothing.
proof fn lemma_assoc_get_absent_level(s: Seq<(Seq<u32>, (Set<u32>, bool))>, k: Seq<u32>)
    requires
        forall|j: int| 0 <= j < s.len() ==> (#[trigger] s[j]).0 != k,
    ensures
        assoc_get(s, k) is None,
    decreases s.len(),
{
    if s.len() != 0 {
        lemma_assoc_get_absent_level(s.skip(1), k);
    }
}



/// The records of the non-constant paths, in order.
pub open spec fn nonconst_recs(recs: Seq<crate::fdcollect::FdRecM>) -> Seq<
    crate::fdcollect::FdRecM,
>
    decreases recs.len(),
{
    if recs.len() == 0 {
        Seq::empty()
    } else {
        (if !recs[0].constant {
            seq![recs[0]]
        } else {
            Seq::empty()
        }) + nonconst_recs(recs.skip(1))
    }
}

/// The paths of a list of records.
pub open spec fn rec_paths(rs: Seq<crate::fdcollect::FdRecM>) -> Seq<Seq<char>> {
    rs.map_values(|r: crate::fdcollect::FdRecM| r.path)
}

/// The path table the search runs over: the non-constant paths in
/// collection order.
pub open spec fn nonconst_paths(recs: Seq<crate::fdcollect::FdRecM>) -> Seq<Seq<char>> {
    rec_paths(nonconst_recs(recs))
}



/// The singleton agreement sets of a list of records.
pub open spec fn recs_singles(rs: Seq<crate::fdcollect::FdRecM>) -> Seq<Set<u32>> {
    rs.map_values(|r: crate::fdcollect::FdRecM| groups_agree(r.groups))
}

/// The pair universe of `n` documents.
pub open spec fn all_pairs_set(n: u32) -> Set<u32> {
    Set::new(|t: u32| (t as nat) < pair_count(n as nat))
}

/// Whether an id-level dependency is justified by the collected agreement
/// sets: its violation set, or (for a key rule) its own agreement set,
/// passes the greedy test.
pub open spec fn id_justified(d: (Seq<u32>, u32), singles: Seq<Set<u32>>, all: Set<u32>, n: u32) -> bool {
    ||| fd_holds(
        agree_sets(singles, d.0.to_set(), all).difference(
            agree_sets(singles, seq![d.1].to_set(), all),
        ),
        n,
        FD_TAU_NUM,
        FD_TAU_DEN,
    )
    ||| fd_holds(agree_sets(singles, d.0.to_set(), all), n, FD_TAU_NUM, FD_TAU_DEN)
}

/// Whether a named dependency is the image of an in-range, justified
/// id-level dependency.
pub open spec fn named_justified(
    entry: (Seq<Seq<char>>, Seq<char>),
    pv: Seq<Seq<char>>,
    singles: Seq<Set<u32>>,
    all: Set<u32>,
    n: u32,
) -> bool {
    exists|d: (Seq<u32>, u32)|
        dep_in_range(d, pv) && entry == name_image(d, pv) && id_justified(d, singles, all, n)
}

/// Carrying one batch: when every in-range batch dependency is justified,
/// every named dependency after the batch is the justified image of one.
proof fn lemma_named_just_carry(
    before: Seq<(Vec<String>, String)>,
    after: Seq<(Vec<String>, String)>,
    found: Seq<(Seq<u32>, u32)>,
    pv: Seq<Seq<char>>,
    singles: Seq<Set<u32>>,
    all: Set<u32>,
    n: u32,
)
    requires
        deps_named(after) == deps_named(before) + named_deps_model(found, pv),
        forall|t: int|
            0 <= t < before.len() ==> named_justified(
                #[trigger] deps_named(before)[t],
                pv,
                singles,
                all,
                n,
            ),
        forall|j: int|
            0 <= j < found.len() ==> id_justified(#[trigger] found[j], singles, all, n),
    ensures
        forall|t: int|
            0 <= t < after.len() ==> named_justified(
                #[trigger] deps_named(after)[t],
                pv,
                singles,
                all,
                n,
            ),
{
    assert(deps_named(after).len() == after.len());
    assert(deps_named(before).len() == before.len());
    assert forall|t: int| 0 <= t < after.len() implies named_justified(
        #[trigger] deps_named(after)[t],
        pv,
        singles,
        all,
        n,
    ) by {
        if t < before.len() {
            assert(deps_named(after)[t] == deps_named(before)[t]);
            assert(named_justified(deps_named(before)[t], pv, singles, all, n));
        } else {
            assert(deps_named(after)[t] == named_deps_model(found, pv)[t - before.len()]);
            lemma_named_model_src(found, pv, t - before.len());
            let j = choose|j: int|
                0 <= j < found.len() && dep_in_range(#[trigger] found[j], pv)
                    && named_deps_model(found, pv)[t - before.len()] == name_image(found[j], pv);
            assert(id_justified(found[j], singles, all, n));
            assert(dep_in_range(found[j], pv) && deps_named(after)[t] == name_image(found[j], pv)
                && id_justified(found[j], singles, all, n));
        }
    }
}

/// An emission justified against a faithful agreement map is justified
/// against the collected agreement sets.
proof fn lemma_emitted_justified(
    d: (Seq<u32>, u32),
    amv: Seq<(Seq<u32>, Set<u32>)>,
    singles: Seq<Set<u32>>,
    all: Set<u32>,
    n: u32,
)
    requires
        fd_emitted_ok(d.0, d.1, amv, n, FD_TAU_NUM, FD_TAU_DEN),
        am_faithful(amv, amv.len() as int, singles, all),
    ensures
        id_justified(d, singles, all, n),
{
    lemma_assoc_get_some_entry(amv, d.0);
    lemma_assoc_get_some_entry(amv, seq![d.1]);
    let jy = choose|jy: int|
        0 <= jy < amv.len() && (#[trigger] amv[jy]).0 == d.0 && amv[jy].1 == assoc_get(
            amv,
            d.0,
        )->Some_0;
    let jz = choose|jz: int|
        0 <= jz < amv.len() && (#[trigger] amv[jz]).0 == seq![d.1] && amv[jz].1 == assoc_get(
            amv,
            seq![d.1],
        )->Some_0;
    assert(amv[jy].1 == agree_sets(singles, d.0.to_set(), all));
    assert(amv[jz].1 == agree_sets(singles, seq![d.1].to_set(), all));
}

/// A key rule justified against a faithful agreement map is justified
/// against the collected agreement sets.
proof fn lemma_prune_justified(
    d: (Seq<u32>, u32),
    lvl: Seq<(Seq<u32>, (Set<u32>, bool))>,
    amv: Seq<(Seq<u32>, Set<u32>)>,
    singles: Seq<Set<u32>>,
    all: Set<u32>,
    n: u32,
)
    requires
        prune_emitted_ok(d.0, d.1, lvl, amv, n, FD_TAU_NUM, FD_TAU_DEN),
        am_faithful(amv, amv.len() as int, singles, all),
    ensures
        id_justified(d, singles, all, n),
{
    lemma_assoc_get_some_entry(amv, d.0);
    let jy = choose|jy: int|
        0 <= jy < amv.len() && (#[trigger] amv[jy]).0 == d.0 && amv[jy].1 == assoc_get(
            amv,
            d.0,
        )->Some_0;
    assert(amv[jy].1 == agree_sets(singles, d.0.to_set(), all));
}

/// Violation threshold: at most one percent of documents may take part in
/// violating pairs.
pub const FD_TAU_NUM: u64 = 99;

/// Denominator of the violation threshold.
pub const FD_TAU_DEN: u64 = 100;

/// Run the level-wise search over the collected partitions of `n` documents
/// and return the discovered dependencies, each as its left-hand path names
/// (ordered by path index) with the right-hand path name.  Fewer than two
/// documents admit no pairs, and an all-constant data set leaves nothing to
/// search: both give an empty result.
pub fn discover(st: &FdState, n: u32) -> (deps: Vec<(Vec<String>, String)>)
    requires
        st.wf(),
        n <= MAX_FD_DOCS,
        st.recs().len() <= u32::MAX,
        forall|i: int|
            0 <= i < st.recs().len() ==> docs_below((#[trigger] st.recs()[i]).groups, n),
    ensures
        n < 2 ==> deps@.len() == 0,
        (forall|i: int| 0 <= i < st.recs().len() ==> (#[trigger] st.recs()[i]).constant)
            ==> deps@.len() == 0,
        forall|t: int|
            0 <= t < deps@.len() ==> named_justified(
                #[trigger] deps_named(deps@)[t],
                nonconst_paths(st.recs()),
                recs_singles(nonconst_recs(st.recs())),
                all_pairs_set(n),
                n,
            ),
{
    let mut deps: Vec<(Vec<String>, String)> = Vec::new();
    if n < 2 {
        return deps;
    }
    let mut paths: Vec<String> = Vec::new();
    let mut origs: Vec<usize> = Vec::new();
    let ghost recsv = st.recs();
    let ghost mut sel: Seq<crate::fdcollect::FdRecM> = Seq::empty();
    let nr = st.rec_count();
    let mut i: usize = 0;
    proof {
        assert(recsv.skip(0) =~= recsv);
        assert(Seq::<crate::fdcollect::FdRecM>::empty() + nonconst_recs(recsv) =~= nonconst_recs(
            recsv,
        ));
        assert(names_view(paths@) =~= rec_paths(sel));
    }
    while i < nr
        invariant
            st.wf(),
            recsv == st.recs(),
            nr == recsv.len(),
            i <= nr,
            paths@.len() == origs@.len(),
            paths@.len() <= i,
            forall|j: int|
                0 <= j < origs@.len() ==> (#[trigger] origs@[j]) < nr && !st.recs()[origs@[j]
                    as int].constant,
            nonconst_recs(recsv) == sel + nonconst_recs(recsv.skip(i as int)),
            names_view(paths@) == rec_paths(sel),
            sel.len() == origs@.len(),
            forall|t: int| 0 <= t < sel.len() ==> sel[t] == recsv[(#[trigger] origs@[t]) as int],
        decreases nr - i,
    {
        proof {
            assert(recsv.skip(i as int)[0] == recsv[i as int]);
            assert(recsv.skip(i as int).skip(1) =~= recsv.skip(i as int + 1));
        }
        if !st.constant_at(i) {
            let ghost pv0 = names_view(paths@);
            let ghost sel0 = sel;
            paths.push(st.path_at(i).clone());
            origs.push(i);
            proof {
                sel = sel0.push(recsv[i as int]);
                assert(names_view(paths@) =~= pv0.push(recsv[i as int].path));
                assert(rec_paths(sel) =~= rec_paths(sel0).push(recsv[i as int].path));
                assert(names_view(paths@) =~= rec_paths(sel));
                assert(nonconst_recs(recsv) =~= sel + nonconst_recs(recsv.skip(i as int + 1)));
            }
        } else {
            proof {
                assert(sel + nonconst_recs(recsv.skip(i as int)) =~= sel + (Seq::<
                    crate::fdcollect::FdRecM,
                >::empty() + nonconst_recs(recsv.skip(i as int + 1))));
            }
        }
        i += 1;
    }
    proof {
        assert(nonconst_recs(recsv.skip(nr as int)) =~= Seq::<crate::fdcollect::FdRecM>::empty());
        assert(sel + nonconst_recs(recsv.skip(nr as int)) =~= sel);
        assert(names_view(paths@) == nonconst_paths(recsv));
    }
    let np = paths.len();
    if np == 0 {
        return deps;
    }
    proof {
        assert(np <= u32::MAX);
    }
    proof {
        assert(!(forall|i2: int|
            0 <= i2 < st.recs().len() ==> (#[trigger] st.recs()[i2]).constant)) by {
            assert(!st.recs()[origs@[0] as int].constant);
        }
    }
    let ghost singles = recs_singles(nonconst_recs(recsv));
    let ghost all = all_pairs_set(n);
    proof {
        assert(singles == recs_singles(sel));
        assert(singles.len() == np);
    }
    let mut am = AgreeMap::new();
    proof {
        lemma_pair_index_below_count((n - 2) as nat, (n - 1) as nat, n as nat);
        assert(pair_count(n as nat) <= pair_count(MAX_FD_DOCS as nat)) by (nonlinear_arith)
            requires
                2 <= n <= MAX_FD_DOCS,
        ;
        assert(pair_count(MAX_FD_DOCS as nat) <= u32::MAX);
        assert((((n - 1) as nat) * (((n - 1) as nat) - 1)) / 2 + ((n - 2) as nat) + 1 == ((
        n as nat) * ((n as nat) - 1)) / 2) by (nonlinear_arith)
            requires
                2 <= n,
        ;
    }
    let last = index(n - 2, n - 1);
    let mut all_pairs = bm_new();
    bm_insert_below(&mut all_pairs, last + 1);
    let empty_key: Vec<u32> = Vec::new();
    proof {
        lemma_assoc_get_absent(am.view_map(), empty_key@);
        assert(bitmap_model(all_pairs) =~= all);
    }
    am.insert(empty_key, all_pairs);
    proof {
        lemma_agree_empty(singles, all);
        assert(empty_key@.to_set() =~= Set::<u32>::empty());
        assert(am.view_map()[0].1 == agree_sets(singles, am.view_map()[0].0.to_set(), all));
        assert(am_faithful(am.view_map(), am.view_map().len() as int, singles, all));
    }
    let mut level0 = Level::new();
    let mut allp = bm_new();
    bm_insert_below(&mut allp, np as u32);
    let empty_key2: Vec<u32> = Vec::new();
    proof {
        lemma_assoc_get_absent(level0.view_map(), empty_key2@);
    }
    level0.insert(empty_key2, allp, true);
    let mut level1 = Level::new();
    let mut p: usize = 0;
    while p < np
        invariant
            st.wf(),
            2 <= n <= MAX_FD_DOCS,
            np == paths@.len() == origs@.len(),
            np <= u32::MAX,
            p <= np,
            am.wf(),
            level1.wf(),
            forall|i2: int|
                0 <= i2 < st.recs().len() ==> docs_below((#[trigger] st.recs()[i2]).groups, n),
            forall|j: int|
                0 <= j < origs@.len() ==> (#[trigger] origs@[j]) < st.recs().len()
                    && !st.recs()[origs@[j] as int].constant,
            recsv == st.recs(),
            singles == recs_singles(sel),
            singles.len() == np,
            all == all_pairs_set(n),
            sel.len() == np,
            forall|t: int| 0 <= t < sel.len() ==> sel[t] == recsv[(#[trigger] origs@[t]) as int],
            am_faithful(am.view_map(), am.view_map().len() as int, singles, all),
            forall|j: int|
                0 <= j < am.view_map().len() ==> ((#[trigger] am.view_map()[j]).0.len() == 0 || (
                am.view_map()[j].0.len() == 1 && am.view_map()[j].0[0] < p)),
            forall|j: int|
                0 <= j < level1.view_map().len() ==> (#[trigger] level1.view_map()[j]).0.len() == 1
                    && level1.view_map()[j].0[0] < p,
        decreases np - p,
    {
        let sa = singleton_agree(st, origs[p], n);
        let mut kv: Vec<u32> = Vec::new();
        kv.push(p as u32);
        proof {
            assert(strictly_sorted(kv@));
            assert forall|j: int|
                0 <= j < am.view_map().len() implies (#[trigger] am.view_map()[j]).0 != kv@ by {
                if am.view_map()[j].0.len() == 1 {
                    assert(am.view_map()[j].0[0] != kv@[0]);
                }
            }
            lemma_assoc_get_absent(am.view_map(), kv@);
            assert forall|j: int|
                0 <= j < level1.view_map().len() implies (#[trigger] level1.view_map()[j]).0
                != kv@ by {
                assert(level1.view_map()[j].0[0] != kv@[0]);
            }
            lemma_assoc_get_absent(level1.view_map(), kv@);
        }
        let kv2 = ps_clone(&kv);
        let ghost am_pre = am.view_map();
        am.insert(kv, sa);
        proof {
            let pi = p as int;
            assert(sel[pi] == recsv[origs@[pi] as int]);
            assert(singles[pi] == groups_agree(sel[pi].groups));
            assert(bitmap_model(sa) == singles[pi]);
            assert forall|t: u32| singles[pi].contains(t) implies all.contains(t) by {
                lemma_groups_agree_bounded(recsv[origs@[pi] as int].groups, n, t);
            }
            lemma_agree_singleton(singles, p as u32, all);
            assert(Set::<u32>::empty().insert(p as u32) =~= seq![p as u32].to_set()) by {
                assert(seq![p as u32][0] == p as u32);
                assert(seq![p as u32].contains(p as u32));
                assert forall|v: u32| #[trigger] seq![p as u32].contains(v) implies v == p
                    as u32 by {
                    let t = choose|t: int| 0 <= t < 1 && #[trigger] seq![p as u32][t] == v;
                }
            }
            assert(kv2@.to_set() =~= Set::<u32>::empty().insert(p as u32));
            assert(singles[pi].intersect(all) =~= singles[pi]);
            assert(am.view_map()[am_pre.len() as int].1 == agree_sets(
                singles,
                am.view_map()[am_pre.len() as int].0.to_set(),
                all,
            ));
            assert(am_faithful(am.view_map(), am.view_map().len() as int, singles, all)) by {
                assert forall|j: int|
                    0 <= j < am.view_map().len() implies (#[trigger] am.view_map()[j]).1
                    == agree_sets(singles, am.view_map()[j].0.to_set(), all) by {
                    if j < am_pre.len() {
                        assert(am.view_map()[j] == am_pre[j]);
                    }
                }
            }
        }
        level1.insert(kv2, bm_new(), true);
        p += 1;
    }
    let mut round: usize = 0;
    while round < np
        invariant
            st.wf(),
            recsv == st.recs(),
            2 <= n <= MAX_FD_DOCS,
            np == paths@.len(),
            round <= np,
            am.wf(),
            level0.wf(),
            level1.wf(),
            names_view(paths@) == nonconst_paths(recsv),
            singles == recs_singles(nonconst_recs(recsv)),
            all == all_pairs_set(n),
            am_faithful(am.view_map(), am.view_map().len() as int, singles, all),
            forall|k: int|
                0 <= k < level1.view_map().len() ==> (#[trigger] level1.view_map()[k]).0.len()
                    > 0,
            forall|t: int|
                0 <= t < deps@.len() ==> named_justified(
                    #[trigger] deps_named(deps@)[t],
                    nonconst_paths(recsv),
                    singles,
                    all,
                    n,
                ),
        decreases np - round,
    {
        let ghost deps_a = deps@;
        let ghost amv = am.view_map();
        let d1 = compute_dependencies(&level0, &mut level1, &am, n, FD_TAU_NUM, FD_TAU_DEN);
        push_named_deps(&mut deps, &d1, &paths);
        proof {
            assert forall|j: int| 0 <= j < dep_views(d1@).len() implies id_justified(
                #[trigger] dep_views(d1@)[j],
                singles,
                all,
                n,
            ) by {
                assert(fd_emitted_ok(d1@[j].0@, d1@[j].1, amv, n, FD_TAU_NUM, FD_TAU_DEN));
                lemma_emitted_justified(dep_views(d1@)[j], amv, singles, all, n);
            }
            lemma_named_just_carry(
                deps_a,
                deps@,
                dep_views(d1@),
                nonconst_paths(recsv),
                singles,
                all,
                n,
            );
        }
        let ghost deps_b = deps@;
        let ghost lvl_mid = level1.view_map();
        let d2 = prune(&mut level1, &am, n, FD_TAU_NUM, FD_TAU_DEN);
        push_named_deps(&mut deps, &d2, &paths);
        proof {
            assert forall|j: int| 0 <= j < dep_views(d2@).len() implies id_justified(
                #[trigger] dep_views(d2@)[j],
                singles,
                all,
                n,
            ) by {
                assert(prune_emitted_ok(
                    d2@[j].0@,
                    d2@[j].1,
                    lvl_mid,
                    amv,
                    n,
                    FD_TAU_NUM,
                    FD_TAU_DEN,
                ));
                lemma_prune_justified(dep_views(d2@)[j], lvl_mid, amv, singles, all, n);
            }
            lemma_named_just_carry(
                deps_b,
                deps@,
                dep_views(d2@),
                nonconst_paths(recsv),
                singles,
                all,
                n,
            );
        }
        if level1.len() == 0 {
            break;
        }
        let ghost am_pre = am.view_map();
        let nxt = generate_next_level(&level1, &mut am);
        proof {
            assert(am_faithful(am.view_map(), am_pre.len() as int, singles, all)) by {
                assert forall|j: int| 0 <= j < am_pre.len() implies (#[trigger] am.view_map()[j]).1
                    == agree_sets(singles, am.view_map()[j].0.to_set(), all) by {
                    assert(am.view_map()[j] == am_pre[j]);
                }
            }
            lemma_am_faithful_extend(
                am.view_map(),
                am_pre.len() as int,
                am.view_map().len() as int,
                singles,
                all,
            );
        }
        level0 = level1;
        level1 = nxt;
        if level1.len() == 0 {
            break;
        }
        round += 1;
    }
    deps
}


/// The views of a list of path names.
pub open spec fn names_view(v: Seq<String>) -> Seq<Seq<char>> {
    v.map_values(|t: String| t@)
}

/// The table names selected by a list of path indices.
pub open spec fn ids_names(ids: Seq<u32>, paths: Seq<Seq<char>>) -> Seq<Seq<char>> {
    ids.map_values(|id: u32| paths[id as int])
}

/// The view of one named dependency.
pub open spec fn named_view(d: (Vec<String>, String)) -> (Seq<Seq<char>>, Seq<char>) {
    (names_view(d.0@), d.1@)
}

/// The views of a list of named dependencies.
pub open spec fn deps_named(s: Seq<(Vec<String>, String)>) -> Seq<(Seq<Seq<char>>, Seq<char>)> {
    s.map_values(|d: (Vec<String>, String)| named_view(d))
}

/// Whether every path index of an id-level dependency names a table entry.
pub open spec fn dep_in_range(d: (Seq<u32>, u32), paths: Seq<Seq<char>>) -> bool {
    (forall|t: int| 0 <= t < d.0.len() ==> (#[trigger] d.0[t]) < paths.len()) && d.1 < paths.len()
}

/// The path names of an id-level dependency.
pub open spec fn name_image(d: (Seq<u32>, u32), paths: Seq<Seq<char>>) -> (
    Seq<Seq<char>>,
    Seq<char>,
) {
    (ids_names(d.0, paths), paths[d.1 as int])
}

/// The named images of a list of id-level dependencies, one per dependency
/// whose indices all name table entries.
pub open spec fn named_deps_model(found: Seq<(Seq<u32>, u32)>, paths: Seq<Seq<char>>) -> Seq<
    (Seq<Seq<char>>, Seq<char>),
>
    decreases found.len(),
{
    if found.len() == 0 {
        Seq::empty()
    } else {
        (if dep_in_range(found[0], paths) {
            seq![name_image(found[0], paths)]
        } else {
            Seq::empty()
        }) + named_deps_model(found.skip(1), paths)
    }
}

/// Every named image in the model comes from an in-range dependency of the
/// list.
pub proof fn lemma_named_model_src(found: Seq<(Seq<u32>, u32)>, paths: Seq<Seq<char>>, t: int)
    requires
        0 <= t < named_deps_model(found, paths).len(),
    ensures
        exists|j: int|
            0 <= j < found.len() && dep_in_range(#[trigger] found[j], paths)
                && named_deps_model(found, paths)[t] == name_image(found[j], paths),
    decreases found.len(),
{
    if found.len() > 0 {
        if dep_in_range(found[0], paths) && t == 0 {
            assert(0 <= 0 < found.len() && dep_in_range(found[0], paths) && named_deps_model(
                found,
                paths,
            )[t] == name_image(found[0], paths));
        } else {
            let base: int = if dep_in_range(found[0], paths) {
                1
            } else {
                0
            };
            lemma_named_model_src(found.skip(1), paths, t - base);
            let j = choose|j: int|
                0 <= j < found.skip(1).len() && dep_in_range(#[trigger] found.skip(1)[j], paths)
                    && named_deps_model(found.skip(1), paths)[t - base] == name_image(
                    found.skip(1)[j],
                    paths,
                );
            assert(found[j + 1] == found.skip(1)[j]);
            assert(0 <= j + 1 < found.len() && dep_in_range(found[j + 1], paths)
                && named_deps_model(found, paths)[t] == name_image(found[j + 1], paths));
        }
    }
}

/// Map id-level dependencies to path names and collect them.  A dependency
/// naming a path index outside the table is dropped; the search only forms
/// subsets of table indices, so none arises.
fn push_named_deps(deps: &mut Vec<(Vec<String>, String)>, found: &Vec<(Vec<u32>, u32)>, paths: &Vec<
    String,
>)
    ensures
        deps_named(final(deps)@) == deps_named(old(deps)@) + named_deps_model(
            dep_views(found@),
            names_view(paths@),
        ),
{
    let ghost pv = names_view(paths@);
    let ghost fv = dep_views(found@);
    let nf = found.len();
    let mut j: usize = 0;
    proof {
        assert(fv.skip(0) =~= fv);
        assert(deps_named(deps@) + Seq::<(Seq<Seq<char>>, Seq<char>)>::empty() =~= deps_named(
            deps@,
        ));
    }
    while j < nf
        invariant
            nf == found@.len() == fv.len(),
            j <= nf,
            pv == names_view(paths@),
            fv == dep_views(found@),
            deps_named(old(deps)@) + named_deps_model(fv, pv) == deps_named(deps@)
                + named_deps_model(fv.skip(j as int), pv),
        decreases nf - j,
    {
        proof {
            assert(fv.skip(j as int)[0] == fv[j as int]);
            assert(fv.skip(j as int).skip(1) =~= fv.skip(j as int + 1));
        }
        let lhs_ids = &found[j].0;
        let a = found[j].1;
        let mut names: Vec<String> = Vec::new();
        let mut ok = true;
        let nl2 = lhs_ids.len();
        let mut t: usize = 0;
        proof {
            assert(lhs_ids@ == fv[j as int].0);
        }
        while t < nl2
            invariant
                nl2 == lhs_ids@.len(),
                t <= nl2,
                pv == names_view(paths@),
                ok == (forall|t2: int| 0 <= t2 < t ==> (#[trigger] lhs_ids@[t2]) < pv.len()),
                ok ==> names_view(names@) == ids_names(lhs_ids@.take(t as int), pv),
            decreases nl2 - t,
        {
            let ghost was = ok;
            let ghost nv0 = names_view(names@);
            let id = lhs_ids[t] as usize;
            if id < paths.len() {
                names.push(paths[id].clone());
                proof {
                    assert(paths@[id as int]@ == pv[lhs_ids@[t as int] as int]);
                    assert(names_view(names@) =~= nv0.push(pv[lhs_ids@[t as int] as int]));
                }
            } else {
                ok = false;
            }
            proof {
                if was && id < paths@.len() {
                    assert(ids_names(lhs_ids@.take(t as int + 1), pv) =~= ids_names(
                        lhs_ids@.take(t as int),
                        pv,
                    ).push(pv[lhs_ids@[t as int] as int]));
                    assert(names_view(names@) =~= ids_names(lhs_ids@.take(t as int + 1), pv));
                }
                if !was {
                    let t2 = choose|t2: int| 0 <= t2 < t && !((#[trigger] lhs_ids@[t2]) < pv.len());
                    assert(!ok);
                }
            }
            t += 1;
        }
        let ghost dnv0 = deps_named(deps@);
        if ok && (a as usize) < paths.len() {
            proof {
                assert(dep_in_range(fv[j as int], pv));
                assert(lhs_ids@.take(nl2 as int) =~= lhs_ids@);
            }
            deps.push((names, paths[a as usize].clone()));
            proof {
                assert(deps_named(deps@) =~= dnv0.push(name_image(fv[j as int], pv)));
                assert(dnv0 + (seq![name_image(fv[j as int], pv)] + named_deps_model(
                    fv.skip(j as int + 1),
                    pv,
                )) =~= deps_named(deps@) + named_deps_model(fv.skip(j as int + 1), pv));
            }
        } else {
            proof {
                assert(!dep_in_range(fv[j as int], pv)) by {
                    if dep_in_range(fv[j as int], pv) {
                        assert(forall|t2: int|
                            0 <= t2 < lhs_ids@.len() ==> (#[trigger] lhs_ids@[t2]) < pv.len());
                    }
                }
                assert(dnv0 + (Seq::<(Seq<Seq<char>>, Seq<char>)>::empty() + named_deps_model(
                    fv.skip(j as int + 1),
                    pv,
                )) =~= dnv0 + named_deps_model(fv.skip(j as int + 1), pv));
            }
        }
        j += 1;
    }
    proof {
        assert(named_deps_model(fv.skip(nf as int), pv) =~= Seq::<
            (Seq<Seq<char>>, Seq<char>),
        >::empty());
        assert(deps_named(deps@) + named_deps_model(fv.skip(nf as int), pv) =~= deps_named(
            deps@,
        ));
    }
}


/// A successful association lookup names some stored entry.
proof fn lemma_assoc_get_some_entry(s: Seq<(Seq<u32>, Set<u32>)>, k: Seq<u32>)
    requires
        assoc_get(s, k) is Some,
    ensures
        exists|j: int|
            0 <= j < s.len() && (#[trigger] s[j]).0 == k && s[j].1 == assoc_get(s, k)->Some_0,
    decreases s.len(),
{
    if s[0].0 == k {
        assert(s[0].0 == k && s[0].1 == assoc_get(s, k)->Some_0);
    } else {
        lemma_assoc_get_some_entry(s.skip(1), k);
        let j = choose|j: int|
            0 <= j < s.skip(1).len() && (#[trigger] s.skip(1)[j]).0 == k && s.skip(1)[j].1
                == assoc_get(s.skip(1), k)->Some_0;
        assert(s[j + 1].0 == k && s[j + 1].1 == assoc_get(s, k)->Some_0);
    }
}

/// The generation step keeps the agreement map faithful: when every stored
/// entry holds the agreement set of its subset, a freshly joined entry holds
/// the agreement set of the united subset.
pub proof fn lemma_join_agreement(
    e: (Seq<u32>, Set<u32>),
    am: Seq<(Seq<u32>, Set<u32>)>,
    singles: Seq<Set<u32>>,
    all: Set<u32>,
)
    requires
        agree_join_ok(e, am),
        forall|j: int|
            0 <= j < am.len() ==> (#[trigger] am[j]).1 == agree_sets(
                singles,
                am[j].0.to_set(),
                all,
            ),
    ensures
        e.1 == agree_sets(singles, e.0.to_set(), all),
{
    let (ky, kz) = choose|ky: Seq<u32>, kz: Seq<u32>|
        {
            &&& #[trigger] assoc_get(am, ky) is Some
            &&& #[trigger] assoc_get(am, kz) is Some
            &&& e.0.to_set() == ky.to_set().union(kz.to_set())
            &&& e.1 == assoc_get(am, ky)->Some_0.intersect(assoc_get(am, kz)->Some_0)
        };
    lemma_assoc_get_some_entry(am, ky);
    lemma_assoc_get_some_entry(am, kz);
    let jy = choose|j: int|
        0 <= j < am.len() && (#[trigger] am[j]).0 == ky && am[j].1 == assoc_get(am, ky)->Some_0;
    let jz = choose|j: int|
        0 <= j < am.len() && (#[trigger] am[j]).0 == kz && am[j].1 == assoc_get(am, kz)->Some_0;
    lemma_agree_union(singles, ky.to_set(), kz.to_set(), all);
}


/// The empty subset's agreement set is the whole pair universe.
pub proof fn lemma_agree_empty(singles: Seq<Set<u32>>, all: Set<u32>)
    ensures
        agree_sets(singles, Set::<u32>::empty(), all) == all,
{
    assert(agree_sets(singles, Set::<u32>::empty(), all) =~= all);
}

/// A singleton subset's agreement set is its path's agreement set, within
/// the pair universe.
pub proof fn lemma_agree_singleton(singles: Seq<Set<u32>>, p: u32, all: Set<u32>)
    requires
        p < singles.len(),
    ensures
        agree_sets(singles, Set::<u32>::empty().insert(p), all) == singles[p as int].intersect(
            all,
        ),
{
    assert forall|t: u32|
        agree_sets(singles, Set::<u32>::empty().insert(p), all).contains(t) <==> singles[
        p as int].intersect(all).contains(t) by {
        if singles[p as int].intersect(all).contains(t) {
            assert forall|q: u32|
                #[trigger] Set::<u32>::empty().insert(p).contains(q) implies q < singles.len()
                && singles[q as int].contains(t) by {
                assert(q == p);
            }
        }
        if agree_sets(singles, Set::<u32>::empty().insert(p), all).contains(t) {
            assert(Set::<u32>::empty().insert(p).contains(p));
        }
    }
    assert(agree_sets(singles, Set::<u32>::empty().insert(p), all) =~= singles[
        p as int].intersect(all));
}

/// Every pair of a path's agreement set lies in the pair universe of `n`
/// documents.
pub proof fn lemma_groups_agree_bounded(gs: Seq<(u32, Set<u32>)>, n: u32, t: u32)
    requires
        docs_below(gs, n),
        groups_agree(gs).contains(t),
    ensures
        (t as nat) < pair_count(n as nat),
{
    let g = choose|g: int| 0 <= g < gs.len() && group_pairs(#[trigger] gs[g].1).contains(t);
    let (di, dj) = choose|di: u32, dj: u32|
        gs[g].1.contains(di) && gs[g].1.contains(dj) && di < dj && t as nat == pair_index_spec(
            di as nat,
            dj as nat,
        );
    lemma_pair_index_below_count(di as nat, dj as nat, n as nat);
}


/// A faithful agreement map: every entry holds the agreement set of its
/// subset.
pub open spec fn am_faithful(
    am: Seq<(Seq<u32>, Set<u32>)>,
    m: int,
    singles: Seq<Set<u32>>,
    all: Set<u32>,
) -> bool {
    forall|j: int|
        0 <= j < m ==> (#[trigger] am[j]).1 == agree_sets(singles, am[j].0.to_set(), all)
}

/// Extending a faithful agreement map by joined entries keeps it faithful:
/// entries appended by level generation each join two earlier entries, so by
/// induction every entry still holds the agreement set of its subset.
pub proof fn lemma_am_faithful_extend(
    am: Seq<(Seq<u32>, Set<u32>)>,
    old_len: int,
    m: int,
    singles: Seq<Set<u32>>,
    all: Set<u32>,
)
    requires
        0 <= old_len <= m <= am.len(),
        am_faithful(am, old_len, singles, all),
        forall|j: int|
            old_len <= j < am.len() ==> agree_join_ok(#[trigger] am[j], am.take(j)),
    ensures
        am_faithful(am, m, singles, all),
    decreases m - old_len,
{
    if m > old_len {
        lemma_am_faithful_extend(am, old_len, m - 1, singles, all);
        let j = m - 1;
        assert(agree_join_ok(am[j], am.take(j)));
        assert forall|i: int|
            0 <= i < am.take(j).len() implies (#[trigger] am.take(j)[i]).1 == agree_sets(
            singles,
            am.take(j)[i].0.to_set(),
            all,
        ) by {
            assert(am.take(j)[i] == am[i]);
        }
        lemma_join_agreement(am[j], am.take(j), singles, all);
    }
}

} // verus!
