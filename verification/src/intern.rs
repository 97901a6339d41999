//! Value interning: a bijection between scalar texts and dense indices,
//! assigned in observation order.

use vstd::prelude::*;

verus! {

/// First index of `s` in `tbl`, or `tbl.len()` when `s` is absent.
pub open spec fn intern_index(tbl: Seq<Seq<char>>, s: Seq<char>) -> nat
    decreases tbl.len(),
{
    if tbl.len() == 0 {
        0
    } else if tbl[0] == s {
        0
    } else {
        1 + intern_index(tbl.skip(1), s)
    }
}

/// The table after interning `s`: unchanged when present, extended when not.
pub open spec fn intern_table(tbl: Seq<Seq<char>>, s: Seq<char>) -> Seq<Seq<char>> {
    if tbl.contains(s) {
        tbl
    } else {
        tbl.push(s)
    }
}

/// When `s` is present, `intern_index` points at it; otherwise it is the
/// length of the table, so it always points at `s` in `intern_table`.
pub proof fn lemma_intern_index(tbl: Seq<Seq<char>>, s: Seq<char>)
    ensures
        tbl.contains(s) ==> intern_index(tbl, s) < tbl.len() && tbl[intern_index(tbl, s) as int]
            == s,
        !tbl.contains(s) ==> intern_index(tbl, s) == tbl.len(),
        intern_table(tbl, s)[intern_index(tbl, s) as int] == s,
    decreases tbl.len(),
{
    if tbl.len() != 0 && tbl[0] != s {
        lemma_intern_index(tbl.skip(1), s);
        assert(tbl.contains(s) ==> tbl.skip(1).contains(s)) by {
            if tbl.contains(s) {
                let k = choose|k: int| 0 <= k < tbl.len() && tbl[k] == s;
                assert(tbl.skip(1)[k - 1] == s);
            }
        }
        assert(forall|k: int| 0 <= k < tbl.skip(1).len() ==> tbl.skip(1)[k] == tbl[k + 1]);
        if tbl.skip(1).contains(s) {
            let k = choose|k: int| 0 <= k < tbl.skip(1).len() && tbl.skip(1)[k] == s;
            assert(tbl[k + 1] == s);
        }
    }
}

/// The scalar interning table.  Entries are distinct; each scalar text maps
/// to the index of its first (and only) occurrence.
pub struct Interner {
    items: Vec<String>,
}

impl View for Interner {
    type V = Seq<Seq<char>>;

    closed spec fn view(&self) -> Seq<Seq<char>> {
        self.items@.map_values(|s: String| s@)
    }
}

impl Interner {
    /// Entries are pairwise distinct.
    pub open spec fn wf(self) -> bool {
        forall|i: int, j: int| 0 <= i < j < self@.len() ==> self@[i] != self@[j]
    }

    /// An empty table.
    pub fn new() -> (r: Interner)
        ensures
            r@ == Seq::<Seq<char>>::empty(),
            r.wf(),
    {
        Interner { items: Vec::new() }
    }

    /// Number of interned scalars.
    pub fn len(&self) -> (r: usize)
        ensures
            r == self@.len(),
    {
        self.items.len()
    }

    /// The scalar text stored at an index.
    pub fn lookup(&self, idx: usize) -> (r: &String)
        requires
            idx < self@.len(),
        ensures
            r@ == self@[idx as int],
    {
        &self.items[idx]
    }

    /// Index of `s`, interning it first when it is new.  Equal texts always
    /// receive equal indices, and the returned index looks `s` back up.
    pub fn intern(&mut self, s: &String) -> (idx: usize)
        requires
            old(self).wf(),
        ensures
            final(self).wf(),
            final(self)@ == intern_table(old(self)@, s@),
            idx == intern_index(old(self)@, s@),
            idx < final(self)@.len(),
            final(self)@[idx as int] == s@,
    {
        proof {
            lemma_intern_index(self@, s@);
        }
        let n = self.items.len();
        let mut k: usize = 0;
        while k < n
            invariant
                n == self@.len(),
                k <= n,
                forall|j: int| 0 <= j < k ==> self@[j] != s@,
                self.wf(),
            decreases n - k,
        {
            if string_eq(&self.items[k], s) {
                proof {
                    lemma_intern_first(self@, s@, k as int);
                    assert(self@.contains(s@)) by {
                        assert(self@[k as int] == s@);
                    }
                }
                return k;
            }
            k += 1;
        }
        assert(!self@.contains(s@));
        self.items.push(s.clone());
        assert(self@ =~= old(self)@.push(s@));
        n
    }
}

/// Whether two strings hold the same characters.
pub fn string_eq(a: &String, b: &String) -> (r: bool)
    ensures
        r == (a@ == b@),
{
    a.eq(b)
}

/// In a table whose first `k` entries differ from `s` while entry `k` equals
/// `s`, the intern index of `s` is `k`.
pub proof fn lemma_intern_first(tbl: Seq<Seq<char>>, s: Seq<char>, k: int)
    requires
        0 <= k < tbl.len(),
        tbl[k] == s,
        forall|j: int| 0 <= j < k ==> tbl[j] != s,
    ensures
        intern_index(tbl, s) == k,
    decreases k,
{
    if k > 0 {
        assert(forall|j: int| 0 <= j < tbl.skip(1).len() ==> tbl.skip(1)[j] == tbl[j + 1]);
        lemma_intern_first(tbl.skip(1), s, k - 1);
    }
}

/// Interning is injective: in a well-formed table two positions holding the
/// same text coincide, so equal canonical forms always share one index.
pub proof fn lemma_intern_unique(t: Interner, i: int, j: int)
    requires
        t.wf(),
        0 <= i < t@.len(),
        0 <= j < t@.len(),
        t@[i] == t@[j],
    ensures
        i == j,
{
}

} // verus!
