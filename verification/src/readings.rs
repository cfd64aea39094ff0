//! The readings of a word: the ways the database allows to split its
//! normalized form into a prefix, a stem and a suffix with an analysis of
//! each. The analyses that the analyzer finds without backoff are exactly
//! one for each reading (see `analyze`).
use vstd::prelude::*;

use crate::analyzer::{
    combine_all, combine_sfx, combine_stm, combined_one, entries, prefix_fits, prefix_stem_ok, split_at_analyses,
    split_inner, split_outer, suffix_fits, suffix_ok, AnalysisView,
};
use crate::morphology_db::MorphologyDB;

verus! {

/// The analyses of the prefix of `wn` before `i`.
pub open spec fn prefix_entries(db: MorphologyDB, wn: Seq<char>, i: int) -> Seq<AnalysisView> {
    entries(db.prefix_hash@, wn.take(i))
}

/// The analyses of the stem of `wn` from `i` to `j`.
pub open spec fn stem_entries(db: MorphologyDB, wn: Seq<char>, i: int, j: int) -> Seq<AnalysisView> {
    entries(db.stem_hash@, wn.subrange(i, j))
}

/// The analyses of the suffix of `wn` from `j` on.
pub open spec fn suffix_entries(db: MorphologyDB, wn: Seq<char>, j: int) -> Seq<AnalysisView> {
    entries(db.suffix_hash@, wn.skip(j))
}

/// The entries of a reading `(i, j, a, b, c)` of the normalized word `wn`
/// are in the database: it holds the prefix before `i`, the stem from `i`
/// to `j` and the suffix from `j` on; `a`, `b` and `c` pick analyses of
/// them, whose categories combine.
pub open spec fn entries_ok(db: MorphologyDB, wn: Seq<char>, r: (int, int, int, int, int)) -> bool {
    let (i, j, a, b, c) = r;
    &&& db.prefix_hash@.contains_key(wn.take(i))
    &&& db.stem_hash@.contains_key(wn.subrange(i, j))
    &&& db.suffix_hash@.contains_key(wn.skip(j))
    &&& 0 <= a < prefix_entries(db, wn, i).len()
    &&& 0 <= b < stem_entries(db, wn, i, j).len()
    &&& 0 <= c < suffix_entries(db, wn, j).len()
    &&& prefix_stem_ok(db, prefix_entries(db, wn, i)[a].category, stem_entries(db, wn, i, j)[b].category)
    &&& suffix_ok(
        db,
        prefix_entries(db, wn, i)[a].category,
        stem_entries(db, wn, i, j)[b].category,
        suffix_entries(db, wn, j)[c].category,
    )
}

/// A reading `(i, j, a, b, c)` of the normalized word `wn` that the database
/// allows: `wn` split at `i` and `j` into a prefix, a non-empty stem and a
/// suffix, the prefix and the suffix no longer than the longest the
/// database holds, with entries in the database that combine.
pub open spec fn valid_reading(db: MorphologyDB, wn: Seq<char>, r: (int, int, int, int, int)) -> bool {
    &&& 0 <= r.0 < r.1 <= wn.len()
    &&& prefix_fits(db, wn, r.0)
    &&& suffix_fits(db, wn, r.1)
    &&& entries_ok(db, wn, r)
}

/// The analysis of a reading, for the dediacritized word `wd`.
pub open spec fn reading_analysis(db: MorphologyDB, wd: Seq<char>, wn: Seq<char>, r: (int, int, int, int, int)) -> AnalysisView {
    let (i, j, a, b, c) = r;
    combined_one(db, wd, prefix_entries(db, wn, i)[a], stem_entries(db, wn, i, j)[b], suffix_entries(db, wn, j)[c])
}

/// The analyses of readings.
pub open spec fn readings_analyses(db: MorphologyDB, wd: Seq<char>, wn: Seq<char>, rs: Seq<(int, int, int, int, int)>) -> Seq<AnalysisView> {
    rs.map_values(|r: (int, int, int, int, int)| reading_analysis(db, wd, wn, r))
}

/// Reading `r` comes before reading `q`: by the prefix's end, then the
/// stem's end, then the prefix, stem and suffix analyses.
pub open spec fn reading_before(r: (int, int, int, int, int), q: (int, int, int, int, int)) -> bool {
    ||| r.0 < q.0
    ||| r.0 == q.0 && r.1 < q.1
    ||| r.0 == q.0 && r.1 == q.1 && r.2 < q.2
    ||| r.0 == q.0 && r.1 == q.1 && r.2 == q.2 && r.3 < q.3
    ||| r.0 == q.0 && r.1 == q.1 && r.2 == q.2 && r.3 == q.3 && r.4 < q.4
}

/// Each reading of `rs` comes before the ones after it.
pub open spec fn sorted_readings(rs: Seq<(int, int, int, int, int)>) -> bool {
    forall|k1: int, k2: int| 0 <= k1 < k2 < rs.len() ==> reading_before(#[trigger] rs[k1], #[trigger] rs[k2])
}

proof fn lemma_sorted_append(x: Seq<(int, int, int, int, int)>, y: Seq<(int, int, int, int, int)>)
    requires
        sorted_readings(x),
        sorted_readings(y),
        forall|k1: int, k2: int| 0 <= k1 < x.len() && 0 <= k2 < y.len() ==> reading_before(#[trigger] x[k1], #[trigger] y[k2]),
    ensures
        sorted_readings(x + y),
{
    let z = x + y;
    assert forall|k1: int, k2: int| 0 <= k1 < k2 < z.len() implies reading_before(#[trigger] z[k1], #[trigger] z[k2]) by {
        if k2 < x.len() {
            assert(z[k1] == x[k1] && z[k2] == x[k2]);
        } else if k1 >= x.len() {
            assert(z[k1] == y[k1 - x.len()] && z[k2] == y[k2 - x.len()]);
        } else {
            assert(z[k1] == x[k1] && z[k2] == y[k2 - x.len()]);
        }
    }
}

/// The readings with prefix analysis `a` and stem analysis `b` and a suffix
/// analysis before `n`, in order.
pub open spec fn readings_sfx(db: MorphologyDB, wn: Seq<char>, i: int, j: int, a: int, b: int, n: int) -> Seq<(int, int, int, int, int)>
    decreases n,
{
    if n <= 0 {
        seq![]
    } else {
        readings_sfx(db, wn, i, j, a, b, n - 1) + if suffix_ok(
            db,
            prefix_entries(db, wn, i)[a].category,
            stem_entries(db, wn, i, j)[b].category,
            suffix_entries(db, wn, j)[n - 1].category,
        ) {
            seq![(i, j, a, b, n - 1)]
        } else {
            seq![]
        }
    }
}

proof fn lemma_map_append(db: MorphologyDB, wd: Seq<char>, wn: Seq<char>, x: Seq<(int, int, int, int, int)>, y: Seq<(int, int, int, int, int)>)
    ensures
        readings_analyses(db, wd, wn, x + y) == readings_analyses(db, wd, wn, x) + readings_analyses(db, wd, wn, y),
{
    assert(readings_analyses(db, wd, wn, x + y) =~= readings_analyses(db, wd, wn, x) + readings_analyses(db, wd, wn, y));
}

proof fn lemma_contains_append(x: Seq<(int, int, int, int, int)>, y: Seq<(int, int, int, int, int)>, e: (int, int, int, int, int))
    ensures
        (x.contains(e) || y.contains(e)) ==> (x + y).contains(e),
{
    if x.contains(e) {
        let k = choose|k: int| 0 <= k < x.len() && x[k] == e;
        assert((x + y)[k] == e);
    } else if y.contains(e) {
        let k = choose|k: int| 0 <= k < y.len() && y[k] == e;
        assert((x + y)[x.len() + k] == e);
    }
}

proof fn lemma_sfx(db: MorphologyDB, wd: Seq<char>, wn: Seq<char>, i: int, j: int, a: int, b: int, n: int)
    requires
        0 <= n <= suffix_entries(db, wn, j).len(),
    ensures
        combine_sfx(db, wd, prefix_entries(db, wn, i)[a], stem_entries(db, wn, i, j)[b], suffix_entries(db, wn, j).take(n))
            == readings_analyses(db, wd, wn, readings_sfx(db, wn, i, j, a, b, n)),
        forall|k: int|
            0 <= k < readings_sfx(db, wn, i, j, a, b, n).len() ==> {
                let r = #[trigger] readings_sfx(db, wn, i, j, a, b, n)[k];
                &&& r.0 == i && r.1 == j && r.2 == a && r.3 == b
                &&& 0 <= r.4 < n
                &&& suffix_ok(
                    db,
                    prefix_entries(db, wn, i)[a].category,
                    stem_entries(db, wn, i, j)[b].category,
                    suffix_entries(db, wn, j)[r.4].category,
                )
            },
        forall|c: int|
            0 <= c < n && suffix_ok(
                db,
                prefix_entries(db, wn, i)[a].category,
                stem_entries(db, wn, i, j)[b].category,
                suffix_entries(db, wn, j)[c].category,
            ) ==> #[trigger] readings_sfx(db, wn, i, j, a, b, n).contains((i, j, a, b, c)),
        sorted_readings(readings_sfx(db, wn, i, j, a, b, n)),
    decreases n,
{
    let xs = suffix_entries(db, wn, j);
    if n == 0 {
        assert(xs.take(0) =~= Seq::<AnalysisView>::empty());
        assert(readings_analyses(db, wd, wn, Seq::empty()) =~= Seq::<AnalysisView>::empty());
    } else {
        lemma_sfx(db, wd, wn, i, j, a, b, n - 1);
        assert(xs.take(n).drop_last() =~= xs.take(n - 1));
        assert(xs.take(n).last() == xs[n - 1]);
        let head = readings_sfx(db, wn, i, j, a, b, n - 1);
        let ok = suffix_ok(
            db,
            prefix_entries(db, wn, i)[a].category,
            stem_entries(db, wn, i, j)[b].category,
            xs[n - 1].category,
        );
        let tail: Seq<(int, int, int, int, int)> = if ok {
            seq![(i, j, a, b, n - 1)]
        } else {
            seq![]
        };
        lemma_map_append(db, wd, wn, head, tail);
        if ok {
            assert(readings_analyses(db, wd, wn, tail) =~= seq![reading_analysis(db, wd, wn, (i, j, a, b, n - 1))]);
        } else {
            assert(readings_analyses(db, wd, wn, tail) =~= Seq::<AnalysisView>::empty());
        }
        assert forall|k1: int, k2: int| 0 <= k1 < head.len() && 0 <= k2 < tail.len() implies reading_before(
            #[trigger] head[k1],
            #[trigger] tail[k2],
        ) by {
            assert(head.len() > 0 && tail.len() > 0);
        }
        lemma_sorted_append(head, tail);
        let all = head + tail;
        assert forall|k: int| 0 <= k < all.len() implies {
            let r = #[trigger] all[k];
            &&& r.0 == i && r.1 == j && r.2 == a && r.3 == b
            &&& 0 <= r.4 < n
            &&& suffix_ok(
                db,
                prefix_entries(db, wn, i)[a].category,
                stem_entries(db, wn, i, j)[b].category,
                suffix_entries(db, wn, j)[r.4].category,
            )
        } by {
            if k < head.len() {
                assert(all[k] == head[k]);
            } else {
                assert(all[k] == tail[k - head.len()]);
            }
        }
        assert forall|c: int|
            0 <= c < n && suffix_ok(
                db,
                prefix_entries(db, wn, i)[a].category,
                stem_entries(db, wn, i, j)[b].category,
                suffix_entries(db, wn, j)[c].category,
            ) implies #[trigger] readings_sfx(db, wn, i, j, a, b, n).contains((i, j, a, b, c)) by {
            if c < n - 1 {
                assert(head.contains((i, j, a, b, c)));
            } else {
                assert(tail[0] == (i, j, a, b, c));
                assert(tail.contains((i, j, a, b, c)));
            }
            lemma_contains_append(head, tail, (i, j, a, b, c));
        }
    }
}

/// The readings with prefix analysis `a` and a stem analysis before `n`,
/// in order.
pub open spec fn readings_stm(db: MorphologyDB, wn: Seq<char>, i: int, j: int, a: int, n: int) -> Seq<(int, int, int, int, int)>
    decreases n,
{
    if n <= 0 {
        seq![]
    } else {
        readings_stm(db, wn, i, j, a, n - 1) + if prefix_stem_ok(
            db,
            prefix_entries(db, wn, i)[a].category,
            stem_entries(db, wn, i, j)[n - 1].category,
        ) {
            readings_sfx(db, wn, i, j, a, n - 1, suffix_entries(db, wn, j).len() as int)
        } else {
            seq![]
        }
    }
}

proof fn lemma_stm(db: MorphologyDB, wd: Seq<char>, wn: Seq<char>, i: int, j: int, a: int, n: int)
    requires
        0 <= n <= stem_entries(db, wn, i, j).len(),
        0 <= a < prefix_entries(db, wn, i).len(),
        db.prefix_hash@.contains_key(wn.take(i)),
        db.stem_hash@.contains_key(wn.subrange(i, j)),
        db.suffix_hash@.contains_key(wn.skip(j)),
    ensures
        combine_stm(db, wd, prefix_entries(db, wn, i)[a], stem_entries(db, wn, i, j).take(n), suffix_entries(db, wn, j))
            == readings_analyses(db, wd, wn, readings_stm(db, wn, i, j, a, n)),
        forall|k: int|
            0 <= k < readings_stm(db, wn, i, j, a, n).len() ==> {
                let r = #[trigger] readings_stm(db, wn, i, j, a, n)[k];
                &&& r.0 == i && r.1 == j && r.2 == a && 0 <= r.3 < n
                &&& entries_ok(db, wn, r)
            },
        forall|b: int, c: int|
            0 <= b < n && entries_ok(db, wn, (i, j, a, b, c)) ==> #[trigger] readings_stm(db, wn, i, j, a, n).contains(
                (i, j, a, b, c),
            ),
        sorted_readings(readings_stm(db, wn, i, j, a, n)),
    decreases n,
{
    let ss = stem_entries(db, wn, i, j);
    let xs = suffix_entries(db, wn, j);
    if n == 0 {
        assert(ss.take(0) =~= Seq::<AnalysisView>::empty());
        assert(readings_analyses(db, wd, wn, Seq::empty()) =~= Seq::<AnalysisView>::empty());
    } else {
        lemma_stm(db, wd, wn, i, j, a, n - 1);
        assert(ss.take(n).drop_last() =~= ss.take(n - 1));
        assert(ss.take(n).last() == ss[n - 1]);
        let head = readings_stm(db, wn, i, j, a, n - 1);
        let ok = prefix_stem_ok(db, prefix_entries(db, wn, i)[a].category, ss[n - 1].category);
        let tail: Seq<(int, int, int, int, int)> = if ok {
            readings_sfx(db, wn, i, j, a, n - 1, xs.len() as int)
        } else {
            seq![]
        };
        lemma_sfx(db, wd, wn, i, j, a, n - 1, xs.len() as int);
        assert(xs.take(xs.len() as int) =~= xs);
        lemma_map_append(db, wd, wn, head, tail);
        if !ok {
            assert(readings_analyses(db, wd, wn, tail) =~= Seq::<AnalysisView>::empty());
        }
        assert forall|k1: int, k2: int| 0 <= k1 < head.len() && 0 <= k2 < tail.len() implies reading_before(
            #[trigger] head[k1],
            #[trigger] tail[k2],
        ) by {
            assert(head.len() > 0 && tail.len() > 0);
        }
        lemma_sorted_append(head, tail);
        let all = head + tail;
        assert forall|k: int| 0 <= k < all.len() implies {
            let r = #[trigger] all[k];
            &&& r.0 == i && r.1 == j && r.2 == a && 0 <= r.3 < n
            &&& entries_ok(db, wn, r)
        } by {
            if k < head.len() {
                assert(all[k] == head[k]);
            } else {
                assert(all[k] == tail[k - head.len()]);
            }
        }
        assert forall|b: int, c: int| 0 <= b < n && entries_ok(db, wn, (i, j, a, b, c)) implies #[trigger] readings_stm(
            db,
            wn,
            i,
            j,
            a,
            n,
        ).contains((i, j, a, b, c)) by {
            if b < n - 1 {
                assert(head.contains((i, j, a, b, c)));
            } else {
                assert(tail.contains((i, j, a, b, c)));
            }
            lemma_contains_append(head, tail, (i, j, a, b, c));
        }
    }
}

/// The readings at `i` and `j` with a prefix analysis before `n`, in order.
pub open spec fn readings_all(db: MorphologyDB, wn: Seq<char>, i: int, j: int, n: int) -> Seq<(int, int, int, int, int)>
    decreases n,
{
    if n <= 0 {
        seq![]
    } else {
        readings_all(db, wn, i, j, n - 1) + readings_stm(db, wn, i, j, n - 1, stem_entries(db, wn, i, j).len() as int)
    }
}

proof fn lemma_all(db: MorphologyDB, wd: Seq<char>, wn: Seq<char>, i: int, j: int, n: int)
    requires
        0 <= n <= prefix_entries(db, wn, i).len(),
        db.prefix_hash@.contains_key(wn.take(i)),
        db.stem_hash@.contains_key(wn.subrange(i, j)),
        db.suffix_hash@.contains_key(wn.skip(j)),
    ensures
        combine_all(db, wd, prefix_entries(db, wn, i).take(n), stem_entries(db, wn, i, j), suffix_entries(db, wn, j))
            == readings_analyses(db, wd, wn, readings_all(db, wn, i, j, n)),
        forall|k: int|
            0 <= k < readings_all(db, wn, i, j, n).len() ==> {
                let r = #[trigger] readings_all(db, wn, i, j, n)[k];
                &&& r.0 == i && r.1 == j && 0 <= r.2 < n
                &&& entries_ok(db, wn, r)
            },
        forall|a: int, b: int, c: int|
            0 <= a < n && entries_ok(db, wn, (i, j, a, b, c)) ==> #[trigger] readings_all(db, wn, i, j, n).contains(
                (i, j, a, b, c),
            ),
        sorted_readings(readings_all(db, wn, i, j, n)),
    decreases n,
{
    let ps = prefix_entries(db, wn, i);
    let ss = stem_entries(db, wn, i, j);
    if n == 0 {
        assert(ps.take(0) =~= Seq::<AnalysisView>::empty());
        assert(readings_analyses(db, wd, wn, Seq::empty()) =~= Seq::<AnalysisView>::empty());
    } else {
        lemma_all(db, wd, wn, i, j, n - 1);
        assert(ps.take(n).drop_last() =~= ps.take(n - 1));
        assert(ps.take(n).last() == ps[n - 1]);
        let head = readings_all(db, wn, i, j, n - 1);
        let tail = readings_stm(db, wn, i, j, n - 1, ss.len() as int);
        lemma_stm(db, wd, wn, i, j, n - 1, ss.len() as int);
        assert(ss.take(ss.len() as int) =~= ss);
        lemma_map_append(db, wd, wn, head, tail);
        assert forall|k1: int, k2: int| 0 <= k1 < head.len() && 0 <= k2 < tail.len() implies reading_before(
            #[trigger] head[k1],
            #[trigger] tail[k2],
        ) by {
            assert(head.len() > 0 && tail.len() > 0);
        }
        lemma_sorted_append(head, tail);
        let all = head + tail;
        assert forall|k: int| 0 <= k < all.len() implies {
            let r = #[trigger] all[k];
            &&& r.0 == i && r.1 == j && 0 <= r.2 < n
            &&& entries_ok(db, wn, r)
        } by {
            if k < head.len() {
                assert(all[k] == head[k]);
            } else {
                assert(all[k] == tail[k - head.len()]);
            }
        }
        assert forall|a: int, b: int, c: int| 0 <= a < n && entries_ok(db, wn, (i, j, a, b, c)) implies #[trigger] readings_all(
            db,
            wn,
            i,
            j,
            n,
        ).contains((i, j, a, b, c)) by {
            if a < n - 1 {
                assert(head.contains((i, j, a, b, c)));
            } else {
                assert(tail.contains((i, j, a, b, c)));
            }
            lemma_contains_append(head, tail, (i, j, a, b, c));
        }
    }
}

/// The readings at `i` and `j`, in order: none unless the database holds
/// the prefix, the stem and the suffix.
pub open spec fn readings_at(db: MorphologyDB, wn: Seq<char>, i: int, j: int) -> Seq<(int, int, int, int, int)> {
    if db.prefix_hash@.contains_key(wn.take(i)) && db.suffix_hash@.contains_key(wn.skip(j))
        && db.stem_hash@.contains_key(wn.subrange(i, j)) {
        readings_all(db, wn, i, j, prefix_entries(db, wn, i).len() as int)
    } else {
        seq![]
    }
}

proof fn lemma_at(db: MorphologyDB, wd: Seq<char>, wn: Seq<char>, i: int, j: int)
    ensures
        split_at_analyses(db, wd, wn, i, j) == readings_analyses(db, wd, wn, readings_at(db, wn, i, j)),
        forall|k: int|
            0 <= k < readings_at(db, wn, i, j).len() ==> {
                let r = #[trigger] readings_at(db, wn, i, j)[k];
                &&& r.0 == i && r.1 == j
                &&& entries_ok(db, wn, r)
            },
        forall|a: int, b: int, c: int|
            entries_ok(db, wn, (i, j, a, b, c)) ==> #[trigger] readings_at(db, wn, i, j).contains((i, j, a, b, c)),
        sorted_readings(readings_at(db, wn, i, j)),
{
    if db.prefix_hash@.contains_key(wn.take(i)) && db.suffix_hash@.contains_key(wn.skip(j))
        && db.stem_hash@.contains_key(wn.subrange(i, j)) {
        let ps = prefix_entries(db, wn, i);
        lemma_all(db, wd, wn, i, j, ps.len() as int);
        assert(ps.take(ps.len() as int) =~= ps);
    } else {
        assert(readings_analyses(db, wd, wn, Seq::empty()) =~= Seq::<AnalysisView>::empty());
    }
}

/// The readings with the stem starting at `i` and the suffix at `j` or
/// later, in order.
pub open spec fn readings_inner(db: MorphologyDB, wn: Seq<char>, i: int, j: int) -> Seq<(int, int, int, int, int)>
    decreases wn.len() + 1 - j,
{
    if j < 0 || j > wn.len() {
        seq![]
    } else {
        (if suffix_fits(db, wn, j) {
            readings_at(db, wn, i, j)
        } else {
            seq![]
        }) + readings_inner(db, wn, i, j + 1)
    }
}

proof fn lemma_inner(db: MorphologyDB, wd: Seq<char>, wn: Seq<char>, i: int, j: int)
    requires
        0 <= j,
    ensures
        split_inner(db, wd, wn, i, j) == readings_analyses(db, wd, wn, readings_inner(db, wn, i, j)),
        forall|k: int|
            0 <= k < readings_inner(db, wn, i, j).len() ==> {
                let r = #[trigger] readings_inner(db, wn, i, j)[k];
                &&& r.0 == i && j <= r.1 <= wn.len()
                &&& suffix_fits(db, wn, r.1)
                &&& entries_ok(db, wn, r)
            },
        forall|r: (int, int, int, int, int)|
            r.0 == i && j <= r.1 <= wn.len() && suffix_fits(db, wn, r.1) && entries_ok(db, wn, r)
                ==> #[trigger] readings_inner(db, wn, i, j).contains(r),
        sorted_readings(readings_inner(db, wn, i, j)),
    decreases wn.len() + 1 - j,
{
    if j > wn.len() {
        assert(readings_analyses(db, wd, wn, Seq::empty()) =~= Seq::<AnalysisView>::empty());
    } else {
        lemma_inner(db, wd, wn, i, j + 1);
        lemma_at(db, wd, wn, i, j);
        let head: Seq<(int, int, int, int, int)> = if suffix_fits(db, wn, j) {
            readings_at(db, wn, i, j)
        } else {
            seq![]
        };
        let tail = readings_inner(db, wn, i, j + 1);
        lemma_map_append(db, wd, wn, head, tail);
        if !suffix_fits(db, wn, j) {
            assert(readings_analyses(db, wd, wn, head) =~= Seq::<AnalysisView>::empty());
        }
        assert forall|k1: int, k2: int| 0 <= k1 < head.len() && 0 <= k2 < tail.len() implies reading_before(
            #[trigger] head[k1],
            #[trigger] tail[k2],
        ) by {
            assert(head.len() > 0 && tail.len() > 0);
        }
        lemma_sorted_append(head, tail);
        let all = head + tail;
        assert forall|k: int| 0 <= k < all.len() implies {
            let r = #[trigger] all[k];
            &&& r.0 == i && j <= r.1 <= wn.len()
            &&& suffix_fits(db, wn, r.1)
            &&& entries_ok(db, wn, r)
        } by {
            if k < head.len() {
                assert(all[k] == head[k]);
            } else {
                assert(all[k] == tail[k - head.len()]);
            }
        }
        assert forall|r: (int, int, int, int, int)|
            r.0 == i && j <= r.1 <= wn.len() && suffix_fits(db, wn, r.1) && entries_ok(db, wn, r)
                implies #[trigger] readings_inner(db, wn, i, j).contains(r) by {
            if r.1 == j {
                assert(readings_at(db, wn, i, j).contains((i, j, r.2, r.3, r.4)));
                assert(r == (i, j, r.2, r.3, r.4));
                assert(head.contains(r));
            } else {
                assert(tail.contains(r));
            }
            lemma_contains_append(head, tail, r);
        }
    }
}

/// The readings with the stem starting at `i` or later: shorter prefixes
/// first, then shorter stems.
pub open spec fn readings_outer(db: MorphologyDB, wn: Seq<char>, i: int) -> Seq<(int, int, int, int, int)>
    decreases wn.len() + 1 - i,
{
    if i < 0 || i > wn.len() {
        seq![]
    } else {
        (if prefix_fits(db, wn, i) {
            readings_inner(db, wn, i, i + 1)
        } else {
            seq![]
        }) + readings_outer(db, wn, i + 1)
    }
}

proof fn lemma_outer(db: MorphologyDB, wd: Seq<char>, wn: Seq<char>, i: int)
    requires
        0 <= i,
    ensures
        split_outer(db, wd, wn, i) == readings_analyses(db, wd, wn, readings_outer(db, wn, i)),
        forall|k: int|
            0 <= k < readings_outer(db, wn, i).len() ==> {
                let r = #[trigger] readings_outer(db, wn, i)[k];
                i <= r.0 && valid_reading(db, wn, r)
            },
        forall|r: (int, int, int, int, int)|
            i <= r.0 && valid_reading(db, wn, r) ==> #[trigger] readings_outer(db, wn, i).contains(r),
        sorted_readings(readings_outer(db, wn, i)),
    decreases wn.len() + 1 - i,
{
    if i > wn.len() {
        assert(readings_analyses(db, wd, wn, Seq::empty()) =~= Seq::<AnalysisView>::empty());
    } else {
        lemma_outer(db, wd, wn, i + 1);
        lemma_inner(db, wd, wn, i, i + 1);
        let head: Seq<(int, int, int, int, int)> = if prefix_fits(db, wn, i) {
            readings_inner(db, wn, i, i + 1)
        } else {
            seq![]
        };
        let tail = readings_outer(db, wn, i + 1);
        lemma_map_append(db, wd, wn, head, tail);
        if !prefix_fits(db, wn, i) {
            assert(readings_analyses(db, wd, wn, head) =~= Seq::<AnalysisView>::empty());
        }
        assert forall|k1: int, k2: int| 0 <= k1 < head.len() && 0 <= k2 < tail.len() implies reading_before(
            #[trigger] head[k1],
            #[trigger] tail[k2],
        ) by {
            assert(head.len() > 0 && tail.len() > 0);
        }
        lemma_sorted_append(head, tail);
        let all = head + tail;
        assert forall|k: int| 0 <= k < all.len() implies {
            let r = #[trigger] all[k];
            i <= r.0 && valid_reading(db, wn, r)
        } by {
            if k < head.len() {
                assert(all[k] == head[k]);
            } else {
                assert(all[k] == tail[k - head.len()]);
            }
        }
        assert forall|r: (int, int, int, int, int)| i <= r.0 && valid_reading(db, wn, r) implies #[trigger] readings_outer(
            db,
            wn,
            i,
        ).contains(r) by {
            if r.0 == i {
                assert(head.contains(r));
            } else {
                assert(tail.contains(r));
            }
            lemma_contains_append(head, tail, r);
        }
    }
}

/// The readings of the normalized word `wn` that the database allows, in
/// the order the analyzer finds them.
pub open spec fn readings(db: MorphologyDB, wn: Seq<char>) -> Seq<(int, int, int, int, int)> {
    readings_outer(db, wn, 0)
}

/// The readings of a normalized word are exactly those the database allows,
/// each once: the analyses of the splits of `wn` (as the analyzer finds
/// them for the dediacritized word `wd`) are, in order, one for each
/// reading; each reading is a split into a prefix, a non-empty stem and a
/// suffix that the database holds, the prefix and the suffix within the
/// longest it holds, with a prefix, a stem and a suffix entry whose
/// categories combine; every such reading is there, once; and its analysis
/// has the stem entry's category as its stem category.
pub proof fn lemma_readings_are_the_allowed_ones(db: MorphologyDB, wd: Seq<char>, wn: Seq<char>)
    ensures
        split_outer(db, wd, wn, 0) == readings_analyses(db, wd, wn, readings(db, wn)),
        forall|k: int| 0 <= k < readings(db, wn).len() ==> valid_reading(db, wn, #[trigger] readings(db, wn)[k]),
        forall|r: (int, int, int, int, int)| valid_reading(db, wn, r) ==> #[trigger] readings(db, wn).contains(r),
        forall|r: (int, int, int, int, int)|
            valid_reading(db, wn, r) ==> #[trigger] reading_analysis(db, wd, wn, r).stemcat == stem_entries(
                db,
                wn,
                r.0,
                r.1,
            )[r.3].category,
        forall|k1: int, k2: int|
            0 <= k1 < k2 < readings(db, wn).len() ==> #[trigger] readings(db, wn)[k1] != #[trigger] readings(db, wn)[k2],
{
    lemma_outer(db, wd, wn, 0);
    let rs = readings(db, wn);
    assert forall|k1: int, k2: int| 0 <= k1 < k2 < rs.len() implies #[trigger] rs[k1] != #[trigger] rs[k2] by {
        assert(reading_before(rs[k1], rs[k2]));
    }
}

} // verus!
