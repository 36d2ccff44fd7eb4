use vstd::prelude::*;

use crate::entry::{entry_views, ranked_views, EntryView, RankedEntry, RankedView, ScoreEntry};

verus! {

/// The number of distinct scores a top-N query covers when no limit is given.
pub const DEFAULT_LIMIT: usize = 10;

/// Every element is strictly greater than every later one.
pub open spec fn strictly_desc(lv: Seq<i32>) -> bool {
    forall|i: int, j: int| 0 <= i < j < lv.len() ==> lv[i] > lv[j]
}

/// Some entry of `es` holds score `v`.
pub open spec fn has_score(es: Seq<EntryView>, v: i32) -> bool {
    exists|i: int| 0 <= i < es.len() && (#[trigger] es[i]).score == v
}

/// Adds `v` to a descending sequence of distinct scores, at its place, unless present.
pub open spec fn insert_level(lv: Seq<i32>, v: i32) -> Seq<i32>
    decreases lv.len(),
{
    if lv.len() == 0 {
        seq![v]
    } else if lv[0] == v {
        lv
    } else if lv[0] < v {
        seq![v] + lv
    } else {
        seq![lv[0]] + insert_level(lv.drop_first(), v)
    }
}

/// The distinct scores of `es`, highest first.
pub open spec fn levels(es: Seq<EntryView>) -> Seq<i32>
    decreases es.len(),
{
    if es.len() == 0 {
        seq![]
    } else {
        insert_level(levels(es.drop_last()), es.last().score)
    }
}

/// The entries of `es` that hold score `v`, in their order, each given `rank`.
pub open spec fn group(es: Seq<EntryView>, v: i32, rank: nat) -> Seq<RankedView>
    decreases es.len(),
{
    if es.len() == 0 {
        seq![]
    } else if es.last().score == v {
        group(es.drop_last(), v, rank).push(RankedView { name: es.last().name, score: v, rank })
    } else {
        group(es.drop_last(), v, rank)
    }
}

/// The groups of the first `k` scores of `lv`, the group of `lv[i]` ranked `i + 1`.
pub open spec fn ranked_upto(es: Seq<EntryView>, lv: Seq<i32>, k: nat) -> Seq<RankedView>
    decreases k,
{
    if k == 0 {
        seq![]
    } else {
        ranked_upto(es, lv, (k - 1) as nat) + group(es, lv[k - 1], k)
    }
}

pub open spec fn min_nat(a: nat, b: nat) -> nat {
    if a < b { a } else { b }
}

/// The top-`n` view of `es`: every entry whose score is among the `n` highest
/// distinct scores, highest score first, ties in the order of `es`, each with
/// the dense rank of its score.
pub open spec fn top_n_view(es: Seq<EntryView>, n: nat) -> Seq<RankedView> {
    ranked_upto(es, levels(es), min_nat(n, levels(es).len()))
}

/// Whether `v` is among the `n` highest distinct scores of `es`.
pub open spec fn among_top(es: Seq<EntryView>, v: i32, n: nat) -> bool {
    exists|k: int| 0 <= k < n && k < levels(es).len() && levels(es)[k] == v
}

proof fn lemma_insert_level_props(lv: Seq<i32>, v: i32)
    requires
        strictly_desc(lv),
    ensures
        strictly_desc(insert_level(lv, v)),
        forall|x: i32| #[trigger] insert_level(lv, v).contains(x) <==> (lv.contains(x) || x == v),
    decreases lv.len(),
{
    if lv.len() == 0 {
        assert forall|x: i32| #[trigger] insert_level(lv, v).contains(x) <==> x == v by {
            if x == v {
                assert(insert_level(lv, v)[0] == x);
            }
        }
    } else if lv[0] == v {
    } else if lv[0] < v {
        let r = seq![v] + lv;
        assert forall|x: i32| r.contains(x) <==> (lv.contains(x) || x == v) by {
            if lv.contains(x) {
                let j = choose|j: int| 0 <= j < lv.len() && lv[j] == x;
                assert(r[j + 1] == x);
            }
            if x == v {
                assert(r[0] == x);
            }
        }
    } else {
        let t = lv.drop_first();
        assert(strictly_desc(t));
        lemma_insert_level_props(t, v);
        let it = insert_level(t, v);
        let r = seq![lv[0]] + it;
        assert forall|i: int, j: int| 0 <= i < j < r.len() implies r[i] > r[j] by {
            if i == 0 {
                assert(it.contains(r[j]));
                if r[j] != v {
                    assert(t.contains(r[j]));
                    let m = choose|m: int| 0 <= m < t.len() && t[m] == r[j];
                    assert(lv[m + 1] == r[j]);
                }
            }
        }
        assert forall|x: i32| r.contains(x) <==> (lv.contains(x) || x == v) by {
            if r.contains(x) {
                let j = choose|j: int| 0 <= j < r.len() && r[j] == x;
                if j == 0 {
                    assert(lv[0] == x);
                } else {
                    assert(it.contains(x));
                    if t.contains(x) {
                        let m = choose|m: int| 0 <= m < t.len() && t[m] == x;
                        assert(lv[m + 1] == x);
                    }
                }
            }
            if lv.contains(x) {
                let j = choose|j: int| 0 <= j < lv.len() && lv[j] == x;
                if j == 0 {
                    assert(r[0] == x);
                } else {
                    assert(t[j - 1] == x);
                    assert(t.contains(x));
                    assert(insert_level(t, v).contains(x));
                    let m = choose|m: int| 0 <= m < it.len() && it[m] == x;
                    assert(r[m + 1] == x);
                }
            }
            if x == v {
                assert(insert_level(t, v).contains(x));
                let m = choose|m: int| 0 <= m < it.len() && it[m] == x;
                assert(r[m + 1] == x);
            }
        }
    }
}

/// The distinct scores are strictly descending and are exactly the scores held.
pub proof fn lemma_levels_props(es: Seq<EntryView>)
    ensures
        strictly_desc(levels(es)),
        forall|v: i32| #[trigger] levels(es).contains(v) <==> has_score(es, v),
    decreases es.len(),
{
    if es.len() > 0 {
        let p = es.drop_last();
        lemma_levels_props(p);
        lemma_insert_level_props(levels(p), es.last().score);
        assert forall|v: i32| #[trigger] levels(es).contains(v) <==> has_score(es, v) by {
            assert(levels(es) == insert_level(levels(p), es.last().score));
            assert(insert_level(levels(p), es.last().score).contains(v) <==> (levels(p).contains(v)
                || v == es.last().score));
            assert(levels(p).contains(v) <==> has_score(p, v));
            if v == es.last().score {
                assert(es[es.len() - 1].score == v);
            }
            if has_score(es, v) {
                let i = choose|i: int| 0 <= i < es.len() && (#[trigger] es[i]).score == v;
                if i < es.len() - 1 {
                    assert(p[i] == es[i]);
                    assert(has_score(p, v));
                }
            }
            if has_score(p, v) {
                let i = choose|i: int| 0 <= i < p.len() && (#[trigger] p[i]).score == v;
                assert(es[i] == p[i]);
            }
        }
    }
}

/// Where the first `i` scores lie above `v` and the next does not, inserting `v`
/// either finds it there or puts it at `i`.
proof fn lemma_insert_level_at(lv: Seq<i32>, v: i32, i: int)
    requires
        0 <= i <= lv.len(),
        forall|j: int| 0 <= j < i ==> lv[j] > v,
        i < lv.len() ==> lv[i] <= v,
    ensures
        insert_level(lv, v) == (if i < lv.len() && lv[i] == v { lv } else { lv.insert(i, v) }),
    decreases i,
{
    if i == 0 {
        if lv.len() == 0 {
            assert(seq![v] =~= lv.insert(0, v));
        } else if lv[0] < v {
            assert(seq![v] + lv =~= lv.insert(0, v));
        }
    } else {
        let t = lv.drop_first();
        lemma_insert_level_at(t, v, i - 1);
        if i < lv.len() && lv[i] == v {
            assert(seq![lv[0]] + t =~= lv);
        } else {
            assert(seq![lv[0]] + t.insert(i - 1, v) =~= lv.insert(i, v));
        }
    }
}

proof fn lemma_group_props(es: Seq<EntryView>, v: i32, rank: nat)
    ensures
        forall|i: int|
            0 <= i < group(es, v, rank).len() ==> (#[trigger] group(es, v, rank)[i]).score == v
                && group(es, v, rank)[i].rank == rank,
        has_score(es, v) ==> group(es, v, rank).len() > 0,
        forall|i: int|
            0 <= i < es.len() && (#[trigger] es[i]).score == v ==> group(es, v, rank).contains(
                RankedView { name: es[i].name, score: v, rank },
            ),
    decreases es.len(),
{
    if es.len() > 0 {
        let p = es.drop_last();
        lemma_group_props(p, v, rank);
        let g = group(es, v, rank);
        let gp = group(p, v, rank);
        if has_score(es, v) && es.last().score != v {
            let i = choose|i: int| 0 <= i < es.len() && (#[trigger] es[i]).score == v;
            assert(p[i] == es[i]);
            assert(has_score(p, v));
        }
        assert forall|i: int| 0 <= i < es.len() && (#[trigger] es[i]).score == v implies g.contains(
            RankedView { name: es[i].name, score: v, rank },
        ) by {
            let item = RankedView { name: es[i].name, score: v, rank };
            if i == es.len() - 1 {
                assert(g[g.len() - 1] == item);
            } else {
                assert(p[i] == es[i]);
                assert(gp.contains(item));
                let m = choose|m: int| 0 <= m < gp.len() && gp[m] == item;
                assert(g[m] == item);
            }
        }
    }
}

proof fn lemma_ranked_upto_props(es: Seq<EntryView>, lv: Seq<i32>, k: nat)
    requires
        k <= lv.len(),
    ensures
        forall|i: int|
            0 <= i < ranked_upto(es, lv, k).len() ==> 1 <= (#[trigger] ranked_upto(
                es,
                lv,
                k,
            )[i]).rank <= k && ranked_upto(es, lv, k)[i].score == lv[ranked_upto(es, lv, k)[i].rank
                - 1],
        forall|i: int, j: int|
            0 <= i < j < ranked_upto(es, lv, k).len() ==> (#[trigger] ranked_upto(es, lv, k)[i]).rank
                <= (#[trigger] ranked_upto(es, lv, k)[j]).rank,
        (forall|j: int| 0 <= j < k ==> has_score(es, #[trigger] lv[j])) ==> {
            let r = ranked_upto(es, lv, k);
            &&& k > 0 ==> r.len() > 0 && r[0].rank == 1 && r[r.len() - 1].rank == k
            &&& forall|i: int| 0 <= i < r.len() - 1 ==> #[trigger] r[i + 1].rank <= r[i].rank + 1
        },
    decreases k,
{
    if k > 0 {
        let k1 = (k - 1) as nat;
        lemma_ranked_upto_props(es, lv, k1);
        lemma_group_props(es, lv[k - 1], k);
        let a = ranked_upto(es, lv, k1);
        let g = group(es, lv[k - 1], k);
        let r = ranked_upto(es, lv, k);
        assert(r == a + g);
        assert forall|i: int| 0 <= i < r.len() implies 1 <= (#[trigger] r[i]).rank <= k && r[i].score
            == lv[r[i].rank - 1] by {
            if i >= a.len() {
                assert(r[i] == g[i - a.len()]);
            } else {
                assert(r[i] == a[i]);
            }
        }
        assert forall|i: int, j: int| 0 <= i < j < r.len() implies (#[trigger] r[i]).rank <= (
        #[trigger] r[j]).rank by {
            if j >= a.len() {
                assert(r[j] == g[j - a.len()]);
                if i >= a.len() {
                    assert(r[i] == g[i - a.len()]);
                } else {
                    assert(r[i] == a[i]);
                }
            } else {
                assert(r[i] == a[i]);
                assert(r[j] == a[j]);
            }
        }
        if forall|j: int| 0 <= j < k ==> has_score(es, #[trigger] lv[j]) {
            assert(has_score(es, lv[k - 1]));
            assert(forall|j: int| 0 <= j < k1 ==> has_score(es, #[trigger] lv[j]));
            assert(g.len() > 0);
            assert(r[r.len() - 1] == g[g.len() - 1]);
            if k1 == 0 {
                assert(a.len() == 0);
                assert(r[0] == g[0]);
            } else {
                assert(r[0] == a[0]);
            }
            assert forall|i: int| 0 <= i < r.len() - 1 implies #[trigger] r[i + 1].rank <= r[i].rank
                + 1 by {
                if i + 1 < a.len() {
                    assert(r[i] == a[i]);
                    assert(r[i + 1] == a[i + 1]);
                } else if i + 1 == a.len() {
                    assert(r[i] == a[a.len() - 1]);
                    assert(r[i + 1] == g[0]);
                } else {
                    assert(r[i] == g[i - a.len()]);
                    assert(r[i + 1] == g[i + 1 - a.len()]);
                }
            }
        }
    }
}

/// Dense ranking of a top-`n` answer: each entry's rank is the place of its
/// score among the distinct stored scores, counted from 1; equal scores share
/// a rank; a higher score has a smaller rank; ranks start at 1 and step by at
/// most one from one entry to the next.
pub proof fn lemma_dense_rank(es: Seq<EntryView>, n: nat)
    ensures
        forall|i: int|
            0 <= i < top_n_view(es, n).len() ==> 1 <= (#[trigger] top_n_view(es, n)[i]).rank <= n
                && levels(es)[top_n_view(es, n)[i].rank - 1] == top_n_view(es, n)[i].score,
        forall|i: int, j: int|
            0 <= i < top_n_view(es, n).len() && 0 <= j < top_n_view(es, n).len() ==> {
                let a = #[trigger] top_n_view(es, n)[i];
                let b = #[trigger] top_n_view(es, n)[j];
                &&& a.score == b.score ==> a.rank == b.rank
                &&& a.score > b.score ==> a.rank < b.rank
            },
        top_n_view(es, n).len() > 0 ==> top_n_view(es, n)[0].rank == 1,
        forall|i: int|
            0 <= i < top_n_view(es, n).len() - 1 ==> {
                let a = top_n_view(es, n)[i];
                let b = #[trigger] top_n_view(es, n)[i + 1];
                b.rank == a.rank || b.rank == a.rank + 1
            },
{
    let lv = levels(es);
    let k = min_nat(n, lv.len());
    let r = top_n_view(es, n);
    lemma_levels_props(es);
    lemma_ranked_upto_props(es, lv, k);
    assert forall|j: int| 0 <= j < k implies has_score(es, #[trigger] lv[j]) by {
        assert(lv.contains(lv[j]));
    }
    assert forall|i: int, j: int| 0 <= i < r.len() && 0 <= j < r.len() implies {
        let a = #[trigger] r[i];
        let b = #[trigger] r[j];
        &&& a.score == b.score ==> a.rank == b.rank
        &&& a.score > b.score ==> a.rank < b.rank
    } by {
        let (ra, rb) = (r[i].rank as int, r[j].rank as int);
        assert(r[i].score == lv[ra - 1] && r[j].score == lv[rb - 1]);
        if ra < rb {
            assert(lv[ra - 1] > lv[rb - 1]);
        } else if rb < ra {
            assert(lv[rb - 1] > lv[ra - 1]);
        }
    }
    assert forall|i: int| 0 <= i < r.len() - 1 implies {
        let a = r[i];
        let b = #[trigger] r[i + 1];
        b.rank == a.rank || b.rank == a.rank + 1
    } by {
        assert(r[i].rank <= r[i + 1].rank);
        assert(r[i + 1].rank <= r[i].rank + 1);
    }
}

proof fn lemma_ranked_upto_includes(es: Seq<EntryView>, lv: Seq<i32>, k: nat, j: int, item: RankedView)
    requires
        0 <= j < k <= lv.len(),
        group(es, lv[j], (j + 1) as nat).contains(item),
    ensures
        ranked_upto(es, lv, k).contains(item),
    decreases k,
{
    let k1 = (k - 1) as nat;
    let a = ranked_upto(es, lv, k1);
    let g = group(es, lv[k - 1], k);
    assert(ranked_upto(es, lv, k) == a + g);
    if j == k - 1 {
        let m = choose|m: int| 0 <= m < g.len() && g[m] == item;
        assert((a + g)[a.len() + m] == item);
    } else {
        lemma_ranked_upto_includes(es, lv, k1, j, item);
        let m = choose|m: int| 0 <= m < a.len() && a[m] == item;
        assert((a + g)[m] == item);
    }
}

/// Every stored entry whose score is among the `n` highest distinct scores is
/// listed by the top-`n` view, with its name, its score and its dense rank.
pub proof fn lemma_top_n_lists_entry(es: Seq<EntryView>, i: int, n: nat)
    requires
        0 <= i < es.len(),
        among_top(es, es[i].score, n),
    ensures
        exists|k: int|
            0 <= k < n && k < levels(es).len() && levels(es)[k] == es[i].score
                && top_n_view(es, n).contains(
                RankedView { name: es[i].name, score: es[i].score, rank: (k + 1) as nat },
            ),
{
    let lv = levels(es);
    let k = choose|k: int| 0 <= k < n && k < lv.len() && lv[k] == es[i].score;
    lemma_group_props(es, lv[k], (k + 1) as nat);
    let item = RankedView { name: es[i].name, score: es[i].score, rank: (k + 1) as nat };
    lemma_ranked_upto_includes(es, lv, min_nat(n, lv.len()), k, item);
}

/// A query whose limit reaches the number of distinct scores is a full scan:
/// every stored entry is listed under its name and score.
pub proof fn lemma_full_scan_lists_all(es: Seq<EntryView>, n: nat)
    requires
        n >= levels(es).len(),
    ensures
        forall|i: int|
            0 <= i < es.len() ==> exists|j: int|
                0 <= j < top_n_view(es, n).len() && (#[trigger] top_n_view(es, n)[j]).name == (
                #[trigger] es[i]).name && top_n_view(es, n)[j].score == es[i].score,
{
    lemma_levels_props(es);
    assert forall|i: int| 0 <= i < es.len() implies exists|j: int|
        0 <= j < top_n_view(es, n).len() && (#[trigger] top_n_view(es, n)[j]).name == (
        #[trigger] es[i]).name && top_n_view(es, n)[j].score == es[i].score by {
        let lv = levels(es);
        assert(has_score(es, es[i].score));
        assert(lv.contains(es[i].score));
        let k = choose|k: int| 0 <= k < lv.len() && lv[k] == es[i].score;
        assert(among_top(es, es[i].score, n));
        lemma_top_n_lists_entry(es, i, n);
        let k2 = choose|k2: int|
            0 <= k2 < n && k2 < lv.len() && lv[k2] == es[i].score && top_n_view(es, n).contains(
                RankedView { name: es[i].name, score: es[i].score, rank: (k2 + 1) as nat },
            );
        let item = RankedView { name: es[i].name, score: es[i].score, rank: (k2 + 1) as nat };
        let j = choose|j: int| 0 <= j < top_n_view(es, n).len() && top_n_view(es, n)[j] == item;
        assert(top_n_view(es, n)[j].name == es[i].name);
    }
}

/// A top-`n` query with `n == 0` lists nothing.
pub proof fn lemma_top_zero_empty(es: Seq<EntryView>)
    ensures
        top_n_view(es, 0) == Seq::<RankedView>::empty(),
{
}

fn insert_level_exec(lv: &mut Vec<i32>, v: i32)
    ensures
        final(lv)@ == insert_level(old(lv)@, v),
{
    let mut i: usize = 0;
    while i < lv.len() && lv[i] > v
        invariant
            i <= lv@.len(),
            forall|j: int| 0 <= j < i ==> lv@[j] > v,
        decreases lv@.len() - i,
    {
        i += 1;
    }
    proof {
        lemma_insert_level_at(lv@, v, i as int);
    }
    if i < lv.len() && lv[i] == v {
        return;
    }
    lv.insert(i, v);
}

/// The distinct scores of `entries`, highest first.
pub fn distinct_scores(entries: &Vec<ScoreEntry>) -> (lv: Vec<i32>)
    ensures
        lv@ == levels(entry_views(entries@)),
        strictly_desc(lv@),
        forall|v: i32| #[trigger] lv@.contains(v) <==> has_score(entry_views(entries@), v),
{
    let ghost es = entry_views(entries@);
    let mut lv: Vec<i32> = Vec::new();
    let mut i: usize = 0;
    while i < entries.len()
        invariant
            i <= entries@.len(),
            es == entry_views(entries@),
            lv@ == levels(es.take(i as int)),
        decreases entries@.len() - i,
    {
        assert(es.take(i + 1).drop_last() =~= es.take(i as int));
        insert_level_exec(&mut lv, entries[i].score);
        i += 1;
    }
    assert(es.take(i as int) =~= es);
    proof {
        lemma_levels_props(es);
    }
    lv
}

/// The entries whose score is among the `n` highest distinct scores, highest
/// score first and ties in the order given, each with the dense rank of its
/// score: one more than the number of distinct higher scores.
pub fn rank_top_n(entries: &Vec<ScoreEntry>, n: usize) -> (r: Vec<RankedEntry>)
    ensures
        ranked_views(r@) == top_n_view(entry_views(entries@), n as nat),
{
    let ghost es = entry_views(entries@);
    let lv = distinct_scores(entries);
    let m: usize = if n < lv.len() { n } else { lv.len() };
    let mut out: Vec<RankedEntry> = Vec::new();
    let mut k: usize = 0;
    while k < m
        invariant
            m <= lv@.len(),
            k <= m,
            es == entry_views(entries@),
            ranked_views(out@) == ranked_upto(es, lv@, k as nat),
        decreases m - k,
    {
        let v = lv[k];
        let mut j: usize = 0;
        while j < entries.len()
            invariant
                k < m <= lv@.len(),
                j <= entries@.len(),
                v == lv@[k as int],
                es == entry_views(entries@),
                ranked_views(out@) == ranked_upto(es, lv@, k as nat) + group(
                    es.take(j as int),
                    v,
                    (k + 1) as nat,
                ),
            decreases entries@.len() - j,
        {
            assert(es.take(j + 1).drop_last() =~= es.take(j as int));
            let e = &entries[j];
            if e.score == v {
                let item = RankedEntry { name: e.name.clone(), score: v, rank: k + 1 };
                let ghost before = out@;
                out.push(item);
                assert(ranked_views(out@) =~= ranked_views(before).push(item@));
            }
            j += 1;
        }
        assert(es.take(j as int) =~= es);
        k += 1;
    }
    out
}

} // verus!
