//! Inclusion-dependency discovery.
//!
//! Given the per-path value sets of a collector, the engine examines every
//! unordered pair of distinct paths and emits the ordered pair `(p, q)` when
//! the values of `p` are contained in those of `q` (exact mode), or when the
//! overlap fraction reaches the configured threshold (approximate mode).  A
//! path with no values never stands on the left of an emitted pair.

use vstd::prelude::*;

use crate::bits::{bm_intersection_len, bm_is_empty, bm_is_subset, bm_len};
use crate::collect::{count_leaves, ind_fold, ind_marker, leaf_count, lemma_obs_len, IndState};
use crate::doc::{is_leaf, join_path, obs, obs_entries, Doc};
use crate::flatten::{flatten_json, flatten_spec, leaf_view, rec_entries_view, rec_view};
use crate::pairs::mul_u64;

verus! {

/// Configuration of the inclusion-dependency engine.  The overlap threshold
/// is the exact rational `threshold_num / threshold_den`.
pub struct INDArgs {
    /// Use the threshold test instead of the exact subset test.
    pub approximate: bool,
    /// Traverse documents directly; when false, the flattener runs first.
    pub dynamic: bool,
    /// Numerator of the overlap threshold.
    pub threshold_num: u64,
    /// Denominator of the overlap threshold.
    pub threshold_den: u64,
}

impl INDArgs {
    /// The threshold is a fraction in `[0, 1]`.
    pub open spec fn wf(self) -> bool {
        0 < self.threshold_den && self.threshold_num <= self.threshold_den
    }
}

/// Whether the ordered pair `(a, b)` of path entries is due for emission.
pub open spec fn emits(
    vals: Seq<(Seq<char>, Set<u32>)>,
    a: int,
    b: int,
    approximate: bool,
    num: nat,
    den: nat,
) -> bool {
    let va = vals[a].1;
    let vb = vals[b].1;
    if approximate {
        va.len() > 0 && va.intersect(vb).len() * den >= num * va.len()
    } else {
        va != Set::<u32>::empty() && va.subset_of(vb)
    }
}

/// The emitted pairs, as path-text views.
pub open spec fn pair_views(r: Seq<(String, String)>) -> Seq<(Seq<char>, Seq<char>)> {
    r.map_values(|p: (String, String)| (p.0@, p.1@))
}

/// Whether `x` is the ordered pair of path names of two distinct entries.
pub open spec fn from_entries(vals: Seq<(Seq<char>, Set<u32>)>, x: (Seq<char>, Seq<char>)) -> bool {
    exists|a: int, b: int|
        0 <= a < vals.len() && 0 <= b < vals.len() && a != b && x == ((vals[a].0, vals[b].0))
}

/// Whether the unordered pair behind the directed pair `(a, b)` has been
/// examined once the outer scan stands at `i` and the inner scan at `j`.
pub open spec fn pair_done(a: int, b: int, i: int, j: int) -> bool {
    let lo = if a < b {
        a
    } else {
        b
    };
    let hi = if a < b {
        b
    } else {
        a
    };
    lo < i || (lo == i && hi < j)
}

/// A sequence extended by one element contains exactly the old elements and
/// the new one.
proof fn lemma_push_contains<T>(s: Seq<T>, e: T, x: T)
    ensures
        s.push(e).contains(x) <==> (s.contains(x) || x == e),
{
    if s.contains(x) {
        let k = choose|k: int| 0 <= k < s.len() && s[k] == x;
        assert(s.push(e)[k] == x);
    }
    if x == e {
        assert(s.push(e)[s.len() as int] == x);
    }
    if s.push(e).contains(x) {
        let k = choose|k: int| 0 <= k < s.push(e).len() && s.push(e)[k] == x;
        if k < s.len() {
            assert(s[k] == x);
        }
    }
}

/// Discover inclusion dependencies: the result holds the ordered pair of
/// path names `(p, q)` exactly when the emission test holds of the entries
/// `p` and `q`, and holds nothing else.
pub fn discover(state: &IndState, args: &INDArgs) -> (r: Vec<(String, String)>)
    requires
        state.wf(),
        args.wf(),
    ensures
        forall|a: int, b: int|
            0 <= a < state.vals().len() && 0 <= b < state.vals().len() && a != b ==> (#[trigger]
            pair_views(r@).contains((state.vals()[a].0, state.vals()[b].0)) <==> emits(
                state.vals(),
                a,
                b,
                args.approximate,
                args.threshold_num as nat,
                args.threshold_den as nat,
            )),
        forall|k: int| 0 <= k < r@.len() ==> from_entries(state.vals(), #[trigger] pair_views(r@)[k]),
        forall|t1: int, t2: int|
            0 <= t1 < t2 < r@.len() ==> #[trigger] pair_views(r@)[t1] != #[trigger] pair_views(
                r@,
            )[t2],
{
    let ghost vals = state.vals();
    let ghost approx = args.approximate;
    let ghost num = args.threshold_num as nat;
    let ghost den = args.threshold_den as nat;
    let n = state.path_count();
    let mut r: Vec<(String, String)> = Vec::new();
    let mut i: usize = 0;
    while i < n
        invariant
            state.wf(),
            args.wf(),
            vals == state.vals(),
            approx == args.approximate,
            num == args.threshold_num as nat,
            den == args.threshold_den as nat,
            n == vals.len(),
            i <= n,
            forall|a: int, b: int|
                0 <= a < n && 0 <= b < n && a != b ==> (#[trigger] pair_views(r@).contains(
                    (vals[a].0, vals[b].0),
                ) <==> (pair_done(a, b, i as int, i as int + 1) && emits(
                    vals,
                    a,
                    b,
                    approx,
                    num,
                    den,
                ))),
            forall|k: int| 0 <= k < r@.len() ==> from_entries(vals, #[trigger] pair_views(r@)[k]),
            forall|t1: int, t2: int|
                0 <= t1 < t2 < r@.len() ==> #[trigger] pair_views(r@)[t1] != #[trigger] pair_views(
                    r@,
                )[t2],
        decreases n - i,
    {
        let mut j: usize = i + 1;
        while j < n
            invariant
                state.wf(),
                args.wf(),
                vals == state.vals(),
                approx == args.approximate,
                num == args.threshold_num as nat,
                den == args.threshold_den as nat,
                n == vals.len(),
                i < n,
                i < j <= n,
                forall|a: int, b: int|
                    0 <= a < n && 0 <= b < n && a != b ==> (#[trigger] pair_views(r@).contains(
                        (vals[a].0, vals[b].0),
                    ) <==> (pair_done(a, b, i as int, j as int) && emits(
                        vals,
                        a,
                        b,
                        approx,
                        num,
                        den,
                    ))),
                forall|k: int|
                    0 <= k < r@.len() ==> from_entries(vals, #[trigger] pair_views(r@)[k]),
                forall|t1: int, t2: int|
                    0 <= t1 < t2 < r@.len() ==> #[trigger] pair_views(r@)[t1] != #[trigger]
                    pair_views(r@)[t2],
            decreases n - j,
        {
            let ghost r0 = r@;
            let ghost ii = i as int;
            let ghost jj = j as int;
            let ghost e1 = (vals[ii].0, vals[jj].0);
            let ghost e2 = (vals[jj].0, vals[ii].0);
            let emit_ij: bool;
            let emit_ji: bool;
            if args.approximate {
                let inter = bm_intersection_len(state.bitmap_at(i), state.bitmap_at(j));
                let len_i = bm_len(state.bitmap_at(i));
                let len_j = bm_len(state.bitmap_at(j));
                emit_ij = len_i > 0 && mul_u64(inter, args.threshold_den) >= mul_u64(
                    args.threshold_num,
                    len_i,
                );
                emit_ji = len_j > 0 && mul_u64(inter, args.threshold_den) >= mul_u64(
                    args.threshold_num,
                    len_j,
                );
                proof {
                    assert(vals[j as int].1.intersect(vals[i as int].1) =~= vals[i as int]
                        .1.intersect(vals[j as int].1));
                    assert(emit_ij == emits(vals, i as int, j as int, approx, num, den));
                    assert(emit_ji == emits(vals, j as int, i as int, approx, num, den));
                }
            } else {
                let nonempty_i = !bm_is_empty(state.bitmap_at(i));
                let nonempty_j = !bm_is_empty(state.bitmap_at(j));
                emit_ij = nonempty_i && bm_is_subset(state.bitmap_at(i), state.bitmap_at(j));
                emit_ji = nonempty_j && bm_is_subset(state.bitmap_at(j), state.bitmap_at(i));
            }
            if emit_ij {
                r.push((state.path_at(i).clone(), state.path_at(j).clone()));
                proof {
                    assert(pair_views(r@) =~= pair_views(r0).push(e1));
                }
            }
            let ghost r1 = r@;
            if emit_ji {
                r.push((state.path_at(j).clone(), state.path_at(i).clone()));
                proof {
                    assert(pair_views(r@) =~= pair_views(r1).push(e2));
                }
            }
            proof {
                assert forall|x: (Seq<char>, Seq<char>)|
                    pair_views(r@).contains(x) <==> (pair_views(r0).contains(x) || (emit_ij && x
                        == e1) || (emit_ji && x == e2)) by {
                    if emit_ij {
                        lemma_push_contains(pair_views(r0), e1, x);
                    }
                    if emit_ji {
                        lemma_push_contains(pair_views(r1), e2, x);
                    }
                }
                assert(vals[ii].0 != vals[jj].0);
                assert forall|a: int, b: int|
                    0 <= a < n && 0 <= b < n && a != b implies (#[trigger] pair_views(r@).contains(
                    (vals[a].0, vals[b].0),
                ) <==> (pair_done(a, b, ii, jj + 1) && emits(vals, a, b, approx, num, den))) by {
                    if a < b {
                        assert(vals[a].0 != vals[b].0);
                    } else {
                        assert(vals[b].0 != vals[a].0);
                    }
                    assert(pair_views(r0).contains((vals[a].0, vals[b].0)) <==> (pair_done(
                        a,
                        b,
                        ii,
                        jj,
                    ) && emits(vals, a, b, approx, num, den)));
                    if a == ii && b == jj {
                        assert(!pair_done(a, b, ii, jj));
                        assert(pair_done(a, b, ii, jj + 1));
                        assert((vals[a].0, vals[b].0) == e1);
                        assert(e1 != e2);
                        assert(!pair_views(r0).contains((vals[a].0, vals[b].0)));
                        assert(pair_views(r@).contains((vals[a].0, vals[b].0)) <==> emit_ij);
                        assert(emit_ij == emits(vals, a, b, approx, num, den));
                    } else if a == jj && b == ii {
                        assert(!pair_done(a, b, ii, jj));
                        assert(pair_done(a, b, ii, jj + 1));
                        assert((vals[a].0, vals[b].0) == e2);
                        assert(e1 != e2);
                        assert(!pair_views(r0).contains((vals[a].0, vals[b].0)));
                        assert(pair_views(r@).contains((vals[a].0, vals[b].0)) <==> emit_ji);
                        assert(emit_ji == emits(vals, a, b, approx, num, den));
                    } else {
                        if a != ii {
                            if a < ii {
                                assert(vals[a].0 != vals[ii].0);
                            } else {
                                assert(vals[ii].0 != vals[a].0);
                            }
                        }
                        if a != jj {
                            if a < jj {
                                assert(vals[a].0 != vals[jj].0);
                            } else {
                                assert(vals[jj].0 != vals[a].0);
                            }
                        }
                        if b != jj {
                            if b < jj {
                                assert(vals[b].0 != vals[jj].0);
                            } else {
                                assert(vals[jj].0 != vals[b].0);
                            }
                        }
                        if b != ii {
                            if b < ii {
                                assert(vals[b].0 != vals[ii].0);
                            } else {
                                assert(vals[ii].0 != vals[b].0);
                            }
                        }
                        assert((vals[a].0, vals[b].0) != e1);
                        assert((vals[a].0, vals[b].0) != e2);
                        assert(pair_views(r@).contains((vals[a].0, vals[b].0)) == pair_views(
                            r0,
                        ).contains((vals[a].0, vals[b].0)));
                        assert(pair_done(a, b, ii, jj + 1) == pair_done(a, b, ii, jj));
                    }
                }
                assert forall|k: int| 0 <= k < r@.len() implies from_entries(
                    vals,
                    #[trigger] pair_views(r@)[k],
                ) by {
                    if k < r0.len() {
                        assert(pair_views(r@)[k] == pair_views(r0)[k]);
                        assert(from_entries(vals, pair_views(r0)[k]));
                    } else if emit_ij && k == r0.len() {
                        assert(pair_views(r@)[k] == ((vals[ii].0, vals[jj].0)));
                        assert(from_entries(vals, pair_views(r@)[k]));
                    } else {
                        assert(pair_views(r@)[k] == ((vals[jj].0, vals[ii].0)));
                        assert(from_entries(vals, pair_views(r@)[k]));
                    }
                }
                assert(vals[ii].0 != vals[jj].0);
                assert(!pair_views(r0).contains(e1)) by {
                    assert(!pair_done(ii, jj, ii, jj));
                }
                assert(!pair_views(r0).contains(e2)) by {
                    assert(!pair_done(jj, ii, ii, jj));
                }
                assert forall|t1: int, t2: int| 0 <= t1 < t2 < r@.len() implies #[trigger]
                pair_views(r@)[t1] != #[trigger] pair_views(r@)[t2] by {
                    if t2 < r0.len() {
                        assert(pair_views(r@)[t1] == pair_views(r0)[t1]);
                        assert(pair_views(r@)[t2] == pair_views(r0)[t2]);
                    } else {
                        if t1 < r0.len() {
                            assert(pair_views(r@)[t1] == pair_views(r0)[t1]);
                            if pair_views(r@)[t2] == e1 {
                                if pair_views(r0)[t1] == e1 {
                                    assert(pair_views(r0).contains(e1));
                                }
                            } else {
                                assert(pair_views(r@)[t2] == e2);
                                if pair_views(r0)[t1] == e2 {
                                    assert(pair_views(r0).contains(e2));
                                }
                            }
                        } else {
                            assert(emit_ij && emit_ji && t1 == r0.len() && t2 == r0.len() + 1);
                            assert(pair_views(r@)[t1] == e1 && pair_views(r@)[t2] == e2);
                            assert(e1 != e2);
                        }
                    }
                }
            }
            j += 1;
        }
        i += 1;
    }
    r
}

/// Inclusion soundness in exact mode: an ordered pair due for emission comes
/// only from contained value sets.
pub proof fn lemma_ind_exact_soundness(
    vals: Seq<(Seq<char>, Set<u32>)>,
    a: int,
    b: int,
    num: nat,
    den: nat,
)
    requires
        0 <= a < vals.len(),
        0 <= b < vals.len(),
        emits(vals, a, b, false, num, den),
    ensures
        vals[a].1.subset_of(vals[b].1),
{
}

/// Equality symmetry in exact mode: two distinct paths carrying the same
/// non-empty value set are each due for emission against the other, so both
/// ordered pairs appear in the engine's result.
pub proof fn lemma_ind_equality_symmetry(
    vals: Seq<(Seq<char>, Set<u32>)>,
    a: int,
    b: int,
    num: nat,
    den: nat,
)
    requires
        0 <= a < vals.len(),
        0 <= b < vals.len(),
        a != b,
        vals[a].1 == vals[b].1,
        vals[a].1 != Set::<u32>::empty(),
    ensures
        emits(vals, a, b, false, num, den),
        emits(vals, b, a, false, num, den),
{
}



/// The leaf observations of one flat record collected as a one-level
/// object: each non-null, non-empty leaf under its own path.
pub open spec fn obs_rec(rec: Seq<(Seq<char>, Option<Seq<char>>)>) -> Seq<(Seq<char>, Seq<char>)>
    decreases rec.len(),
{
    if rec.len() == 0 {
        Seq::empty()
    } else {
        (match rec[0].1 {
            Some(t) => if t.len() > 0 {
                seq![(rec[0].0, t)]
            } else {
                Seq::empty()
            },
            None => Seq::empty(),
        }) + obs_rec(rec.skip(1))
    }
}

/// Collecting a flat record wrapped as an object yields exactly its
/// non-null, non-empty leaves.
pub proof fn lemma_obs_record(entries: Seq<(String, Doc)>, marker: Seq<char>)
    requires
        forall|j: int| 0 <= j < entries.len() ==> is_leaf((#[trigger] entries[j]).1),
    ensures
        obs_entries(entries, Seq::<char>::empty(), marker) == obs_rec(rec_entries_view(entries)),
    decreases entries.len(),
{
    if entries.len() != 0 {
        assert(is_leaf(entries[0].1));
        assert(join_path(Seq::<char>::empty(), entries[0].0@) == entries[0].0@);
        assert(forall|j: int|
            0 <= j < entries.skip(1).len() ==> is_leaf((#[trigger] entries.skip(1)[j]).1));
        lemma_obs_record(entries.skip(1), marker);
        assert(rec_entries_view(entries).skip(1) =~= rec_entries_view(entries.skip(1)));
        assert(rec_entries_view(entries)[0] == (entries[0].0@, leaf_view(entries[0].1)));
        let head = obs(entries[0].1, entries[0].0@, marker);
        let rv = rec_entries_view(entries);
        let rhead = (match rv[0].1 {
            Some(t) => if t.len() > 0 {
                seq![(rv[0].0, t)]
            } else {
                Seq::<(Seq<char>, Seq<char>)>::empty()
            },
            None => Seq::<(Seq<char>, Seq<char>)>::empty(),
        });
        match entries[0].1 {
            Doc::Null => {
                assert(head =~= rhead);
            },
            Doc::Scalar(sv) => {
                assert(leaf_view(entries[0].1) == Some(sv@));
                if sv@.len() > 0 {
                    assert(head =~= rhead);
                } else {
                    assert(head =~= rhead);
                }
            },
            Doc::Array(_) => {
                assert(false);
            },
            Doc::Object(_) => {
                assert(false);
            },
        }
        assert(obs_entries(entries, Seq::<char>::empty(), marker) =~= obs_rec(
            rec_entries_view(entries),
        ));
    }
}

/// Left fold of the collector over a list of flat-record models.
pub open spec fn ind_fold_recs(
    tbl: Seq<Seq<char>>,
    vals: Seq<(Seq<char>, Set<u32>)>,
    rs: Seq<Seq<(Seq<char>, Option<Seq<char>>)>>,
) -> (Seq<Seq<char>>, Seq<(Seq<char>, Set<u32>)>)
    decreases rs.len(),
{
    if rs.len() == 0 {
        (tbl, vals)
    } else {
        let (t1, v1) = ind_fold(tbl, vals, obs_rec(rs[0]));
        ind_fold_recs(t1, v1, rs.skip(1))
    }
}

/// Feed one document into the collector, guarding the interning bound.  In
/// dynamic mode the document is traversed directly, and a `true` result
/// means exactly its leaf observations were folded in.  In static mode the
/// flattener runs first and each flat record is traversed as its own
/// one-level document.  A `false` result means the interning table would
/// have outgrown the value bitmaps; in static mode a prefix of the flat
/// records may already have been recorded.
pub fn collect_document(state: &mut IndState, d: &Doc, dynamic: bool) -> (ok: bool)
    requires
        old(state).wf(),
    ensures
        final(state).wf(),
        dynamic ==> ok == (old(state).tbl().len() + leaf_count(*d) <= u32::MAX),
        (ok && dynamic) ==> (final(state).tbl(), final(state).vals()) == ind_fold(
            old(state).tbl(),
            old(state).vals(),
            obs(*d, Seq::<char>::empty(), ind_marker()),
        ),
        (!ok && dynamic) ==> *final(state) == *old(state),
        (ok && !dynamic) ==> (final(state).tbl(), final(state).vals()) == ind_fold_recs(
            old(state).tbl(),
            old(state).vals(),
            flatten_spec(*d, Seq::<char>::empty()),
        ),
{
    let root = String::new();
    if dynamic {
        match count_leaves(d) {
            None => false,
            Some(c) => {
                let cap: usize = u32::MAX as usize;
                if state.interner_len() <= cap && c <= cap - state.interner_len() {
                    proof {
                        lemma_obs_len(*d, root@, ind_marker());
                    }
                    state.collect_values(&root, d);
                    true
                } else {
                    false
                }
            },
        }
    } else {
        let recs = flatten_json(d);
        let ghost model = flatten_spec(*d, Seq::<char>::empty());
        let nr = recs.len();
        let mut j: usize = 0;
        proof {
            assert(model.skip(0) =~= model);
        }
        while j < nr
            invariant
                !dynamic,
                root@ == Seq::<char>::empty(),
                nr == recs@.len() == model.len(),
                j <= nr,
                state.wf(),
                forall|k: int|
                    0 <= k < recs@.len() ==> ((#[trigger] recs@[k]) matches Doc::Object(rec)
                        && rec_view(rec) == model[k] && (forall|j2: int|
                        0 <= j2 < rec@.len() ==> is_leaf((#[trigger] rec@[j2]).1))),
                ind_fold_recs(old(state).tbl(), old(state).vals(), model) == ind_fold_recs(
                    state.tbl(),
                    state.vals(),
                    model.skip(j as int),
                ),
            decreases nr - j,
        {
            proof {
                assert(model.skip(j as int)[0] == model[j as int]);
                assert(model.skip(j as int).skip(1) =~= model.skip(j as int + 1));
            }
            match count_leaves(&recs[j]) {
                None => {
                    return false;
                },
                Some(c) => {
                    let cap: usize = u32::MAX as usize;
                    if state.interner_len() <= cap && c <= cap - state.interner_len() {
                        proof {
                            lemma_obs_len(recs@[j as int], root@, ind_marker());
                            assert(recs@[j as int] matches Doc::Object(r2) && rec_view(r2)
                                == model[j as int]);
                            let rec = recs@[j as int]->Object_0;
                            assert(forall|j2: int|
                                0 <= j2 < rec@.len() ==> is_leaf((#[trigger] rec@[j2]).1));
                            lemma_obs_record(rec@, ind_marker());
                            assert(obs(recs@[j as int], root@, ind_marker()) == obs_entries(
                                rec@,
                                Seq::<char>::empty(),
                                ind_marker(),
                            ));
                            assert(obs(recs@[j as int], root@, ind_marker()) == obs_rec(
                                model[j as int],
                            ));
                        }
                        state.collect_values(&root, &recs[j]);
                    } else {
                        return false;
                    }
                },
            }
            j += 1;
        }
        proof {
            assert(model.skip(nr as int).len() == 0);
        }
        true
    }
}

} // verus!

