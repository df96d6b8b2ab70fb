//! Period-delta analysis: how viewership changed between a baseline window
//! and an impact window.
//!
//! Both windows are ranked with the same top-N machinery; the union of the
//! ranked ids is then completed by fetching the missing side's windowed
//! total, and every id gets `(baseline, impact, |impact - baseline|)`,
//! ordered by absolute change descending.  Relative percentages are for
//! presentation layers to derive from the two absolute fields.

use crate::date::Date;
use crate::pageview_engine::capped;
use crate::pageview_engine::rank_precedes;
use crate::pageview_engine::window_total_spec;
use crate::pageview_engine::ArticleRank;
use crate::pageview_engine::CategoryRank;
use crate::pageview_engine::PageViewEngine;
use vstd::prelude::*;

verus! {

/// The absolute change between two totals.
pub open spec fn delta_of(baseline: u64, impact: u64) -> int {
    if impact >= baseline {
        impact - baseline
    } else {
        baseline - impact
    }
}

/// First-match lookup in a `(qid, total)` list.
pub open spec fn pair_lookup(s: Seq<(u32, u64)>, q: u32) -> Option<u64>
    decreases s.len(),
{
    if s.len() == 0 {
        None
    } else if s.first().0 == q {
        Some(s.first().1)
    } else {
        pair_lookup(s.drop_first(), q)
    }
}

pub open spec fn pair_listed(s: Seq<(u32, u64)>, q: u32) -> bool {
    pair_lookup(s, q) is Some
}

pub open spec fn pair_value(s: Seq<(u32, u64)>, q: u32) -> u64 {
    match pair_lookup(s, q) {
        Some(t) => t,
        None => 0,
    }
}

/// A qid is listed exactly when some entry carries it.
proof fn lemma_pair_lookup_listed(s: Seq<(u32, u64)>, q: u32)
    ensures
        pair_listed(s, q) <==> exists|k: int| 0 <= k < s.len() && (#[trigger] s[k]).0 == q,
    decreases s.len(),
{
    if s.len() > 0 {
        lemma_pair_lookup_listed(s.drop_first(), q);
        if s.first().0 == q {
            assert(s[0].0 == q);
        } else {
            if exists|k: int| 0 <= k < s.drop_first().len() && (#[trigger] s.drop_first()[k]).0
                == q {
                let k = choose|k: int|
                    0 <= k < s.drop_first().len() && (#[trigger] s.drop_first()[k]).0 == q;
                assert(s[k + 1].0 == q);
            }
            if exists|k: int| 0 <= k < s.len() && (#[trigger] s[k]).0 == q {
                let k = choose|k: int| 0 <= k < s.len() && (#[trigger] s[k]).0 == q;
                assert(k != 0);
                assert(s.drop_first()[k - 1].0 == q);
            }
        }
    }
}

/// In a list with distinct qids, looking a listed qid up yields that
/// entry's total.
proof fn lemma_pair_lookup_at(s: Seq<(u32, u64)>, k: int)
    requires
        0 <= k < s.len(),
        forall|k1: int, k2: int| 0 <= k1 < k2 < s.len() ==> (s[k1].0) != (s[k2].0),
    ensures
        pair_lookup(s, s[k].0) == Some(s[k].1),
    decreases s.len(),
{
    if k == 0 {
    } else {
        assert(s.first().0 != s[k].0);
        assert(s.drop_first()[k - 1] == s[k]);
        lemma_pair_lookup_at(s.drop_first(), k - 1);
    }
}

/// What a merged delta listing must be, over `(qid, baseline, impact,
/// magnitude)` rows: one row per qid of either side, the two totals read
/// from the sides (absent meaning zero), the magnitude their absolute
/// difference, ordered by magnitude descending with ties by ascending qid.
pub open spec fn merged_ok(
    rows: Seq<(u32, u64, u64, u64)>,
    bp: Seq<(u32, u64)>,
    ip: Seq<(u32, u64)>,
) -> bool {
    &&& forall|k: int|
        0 <= k < rows.len() ==> {
            &&& (pair_listed(bp, (#[trigger] rows[k]).0) || pair_listed(ip, rows[k].0))
            &&& rows[k].1 == pair_value(bp, rows[k].0)
            &&& rows[k].2 == pair_value(ip, rows[k].0)
            &&& rows[k].3 == delta_of(rows[k].1, rows[k].2)
        }
    &&& forall|k1: int, k2: int| 0 <= k1 < k2 < rows.len() ==> (rows[k1].0) != (rows[k2].0)
    &&& forall|k1: int, k2: int|
        0 <= k1 < k2 < rows.len() ==> ((rows[k1].3) > (rows[k2].3) || ((rows[k1].3) == (rows[k2].3)
            && (rows[k1].0) <= (rows[k2].0)))
    &&& forall|q: u32|
        pair_listed(bp, q) || pair_listed(ip, q) ==> exists|k: int|
            0 <= k < rows.len() && (#[trigger] rows[k]).0 == q
}

/// First-match lookup, executable.
fn lookup_pair(s: &Vec<(u32, u64)>, q: u32) -> (r: Option<u64>)
    ensures
        r == pair_lookup(s@, q),
{
    let n = s.len();
    proof {
        assert(s@.skip(0) =~= s@);
    }
    let mut i: usize = 0;
    while i < n
        invariant
            n == s@.len(),
            i <= n,
            pair_lookup(s@, q) == pair_lookup(s@.skip(i as int), q),
        decreases n - i,
    {
        proof {
            assert(s@.skip(i as int).first() == s@[i as int]);
            assert(s@.skip(i as int).drop_first() =~= s@.skip(i as int + 1));
        }
        if s[i].0 == q {
            return Some(s[i].1);
        }
        i = i + 1;
    }
    proof {
        assert(s@.skip(n as int) =~= Seq::<(u32, u64)>::empty());
    }
    None
}

/// Merges the two filled side listings into delta rows, ordered by
/// magnitude descending.
#[verifier::rlimit(60)]
fn merge_sides(bp: &Vec<(u32, u64)>, ip: &Vec<(u32, u64)>) -> (rows: Vec<(u32, u64, u64, u64)>)
    ensures
        merged_ok(rows@, bp@, ip@),
{
    // The union of qids, first occurrence first.
    let mut uq: Vec<u32> = Vec::new();
    let mut phase: usize = 0;
    while phase < 2
        invariant
            phase <= 2,
            forall|k1: int, k2: int| 0 <= k1 < k2 < uq@.len() ==> uq@[k1] != uq@[k2],
            forall|k: int|
                0 <= k < uq@.len() ==> pair_listed(bp@, #[trigger] uq@[k]) || pair_listed(
                    ip@,
                    uq@[k],
                ),
            phase >= 1 ==> forall|e: int|
                0 <= e < bp@.len() ==> uq@.contains((#[trigger] bp@[e]).0),
            phase >= 2 ==> forall|e: int|
                0 <= e < ip@.len() ==> uq@.contains((#[trigger] ip@[e]).0),
        decreases 2 - phase,
    {
        let side = if phase == 0 {
            bp
        } else {
            ip
        };
        let n = side.len();
        let mut e: usize = 0;
        while e < n
            invariant
                n == side@.len(),
                e <= n,
                side@ == (if phase == 0 {
                    bp@
                } else {
                    ip@
                }),
                phase <= 1,
                forall|k1: int, k2: int| 0 <= k1 < k2 < uq@.len() ==> uq@[k1] != uq@[k2],
                forall|k: int|
                    0 <= k < uq@.len() ==> pair_listed(bp@, #[trigger] uq@[k]) || pair_listed(
                        ip@,
                        uq@[k],
                    ),
                phase >= 1 ==> forall|e2: int|
                    0 <= e2 < bp@.len() ==> uq@.contains((#[trigger] bp@[e2]).0),
                forall|e2: int| 0 <= e2 < e ==> uq@.contains((#[trigger] side@[e2]).0),
            decreases n - e,
        {
            let q = side[e].0;
            let mut seen = false;
            let mut k: usize = 0;
            let n_uq = uq.len();
            while k < n_uq && !seen
                invariant
                    n_uq == uq@.len(),
                    k <= n_uq,
                    seen ==> uq@.contains(q),
                    !seen ==> forall|k2: int| 0 <= k2 < k ==> (#[trigger] uq@[k2]) != q,
                decreases n_uq - k,
            {
                if uq[k] == q {
                    seen = true;
                }
                k = k + 1;
            }
            if !seen {
                let ghost old_uq = uq@;
                uq.push(q);
                proof {
                    lemma_pair_lookup_listed(side@, q);
                    assert(side@[e as int].0 == q);
                    assert forall|k2: int| 0 <= k2 < uq@.len() implies pair_listed(
                        bp@,
                        #[trigger] uq@[k2],
                    ) || pair_listed(ip@, uq@[k2]) by {
                        if k2 < old_uq.len() {
                            assert(uq@[k2] == old_uq[k2]);
                        }
                    }
                    assert forall|e2: int, s2: Seq<(u32, u64)>|
                        0 <= e2 < s2.len() && old_uq.contains((#[trigger] s2[e2]).0) implies
                        uq@.contains(s2[e2].0) by {
                        let k2 = choose|k2: int| 0 <= k2 < old_uq.len() && old_uq[k2] == s2[e2].0;
                        assert(uq@[k2] == s2[e2].0);
                    }
                    assert(uq@[uq@.len() - 1] == q);
                }
            }
            proof {
                assert(uq@.contains(side@[e as int].0)) by {
                    if seen {
                    } else {
                        assert(uq@[uq@.len() - 1] == q);
                    }
                }
            }
            e = e + 1;
        }
        phase = phase + 1;
    }
    proof {
        assert forall|q: u32| pair_listed(bp@, q) || pair_listed(ip@, q) implies uq@.contains(
            q,
        ) by {
            lemma_pair_lookup_listed(bp@, q);
            lemma_pair_lookup_listed(ip@, q);
            if pair_listed(bp@, q) {
                let e = choose|e: int| 0 <= e < bp@.len() && (#[trigger] bp@[e]).0 == q;
                assert(uq@.contains(bp@[e].0));
            } else {
                let e = choose|e: int| 0 <= e < ip@.len() && (#[trigger] ip@[e]).0 == q;
                assert(uq@.contains(ip@[e].0));
            }
        }
    }
    // One row per qid, then order by magnitude.
    let mut unsorted: Vec<(u32, u64, u64, u64)> = Vec::new();
    let mut mpairs: Vec<(u32, u64)> = Vec::new();
    let n_uq = uq.len();
    let mut k: usize = 0;
    while k < n_uq
        invariant
            n_uq == uq@.len(),
            k <= n_uq,
            forall|k1: int, k2: int| 0 <= k1 < k2 < uq@.len() ==> uq@[k1] != uq@[k2],
            forall|k2: int|
                0 <= k2 < uq@.len() ==> pair_listed(bp@, #[trigger] uq@[k2]) || pair_listed(
                    ip@,
                    uq@[k2],
                ),
            unsorted@.len() == k,
            mpairs@.len() == k,
            forall|k2: int|
                0 <= k2 < k ==> {
                    &&& ((#[trigger] unsorted@[k2]).0) == uq@[k2]
                    &&& unsorted@[k2].1 == pair_value(bp@, uq@[k2])
                    &&& unsorted@[k2].2 == pair_value(ip@, uq@[k2])
                    &&& unsorted@[k2].3 == delta_of(unsorted@[k2].1, unsorted@[k2].2)
                },
            forall|k2: int|
                0 <= k2 < k ==> (#[trigger] mpairs@[k2]) == (uq@[k2], unsorted@[k2].3),
        decreases n_uq - k,
    {
        let q = uq[k];
        let b = match lookup_pair(bp, q) {
            Some(t) => t,
            None => 0,
        };
        let i = match lookup_pair(ip, q) {
            Some(t) => t,
            None => 0,
        };
        let mag = if i >= b {
            i - b
        } else {
            b - i
        };
        unsorted.push((q, b, i, mag));
        mpairs.push((q, mag));
        k = k + 1;
    }
    let sorted = crate::pageview_engine::sort_pairs_desc(&mpairs);
    // Emit rows in sorted order, fetching each row by its qid.
    let mut rows: Vec<(u32, u64, u64, u64)> = Vec::new();
    let n_sorted = sorted.len();
    let mut m: usize = 0;
    while m < n_sorted
        invariant
            n_sorted == sorted@.len(),
            m <= n_sorted,
            sorted@.len() == mpairs@.len(),
            forall|w: (u32, u64)| sorted@.contains(w) <==> mpairs@.contains(w),
            forall|i1: int, j1: int|
                0 <= i1 < j1 < sorted@.len() ==> rank_precedes(sorted@[i1], sorted@[j1]),
            forall|i1: int, j1: int|
                0 <= i1 < j1 < sorted@.len() ==> (sorted@[i1].0) != (sorted@[j1].0),
            n_uq == uq@.len(),
            unsorted@.len() == n_uq,
            mpairs@.len() == n_uq,
            forall|k1: int, k2: int| 0 <= k1 < k2 < uq@.len() ==> uq@[k1] != uq@[k2],
            forall|k2: int|
                0 <= k2 < n_uq ==> pair_listed(bp@, #[trigger] uq@[k2]) || pair_listed(
                    ip@,
                    uq@[k2],
                ),
            forall|k2: int|
                0 <= k2 < n_uq ==> {
                    &&& ((#[trigger] unsorted@[k2]).0) == uq@[k2]
                    &&& unsorted@[k2].1 == pair_value(bp@, uq@[k2])
                    &&& unsorted@[k2].2 == pair_value(ip@, uq@[k2])
                    &&& unsorted@[k2].3 == delta_of(unsorted@[k2].1, unsorted@[k2].2)
                },
            forall|k2: int|
                0 <= k2 < n_uq ==> (#[trigger] mpairs@[k2]) == (uq@[k2], unsorted@[k2].3),
            rows@.len() == m,
            forall|k2: int|
                0 <= k2 < m ==> {
                    &&& ((#[trigger] rows@[k2]).0) == sorted@[k2].0
                    &&& rows@[k2].3 == sorted@[k2].1
                    &&& rows@[k2].1 == pair_value(bp@, rows@[k2].0)
                    &&& rows@[k2].2 == pair_value(ip@, rows@[k2].0)
                    &&& rows@[k2].3 == delta_of(rows@[k2].1, rows@[k2].2)
                },
        decreases n_sorted - m,
    {
        proof {
            assert(sorted@.contains(sorted@[m as int]));
        }
        let (q, mag) = sorted[m];
        // Find this qid's row.
        let mut f: usize = 0;
        let mut row: (u32, u64, u64, u64) = (q, 0, 0, 0);
        let mut found = false;
        while f < n_uq && !found
            invariant
                n_uq == uq@.len(),
                unsorted@.len() == n_uq,
                f <= n_uq,
                !found ==> forall|k2: int| 0 <= k2 < f ==> (#[trigger] uq@[k2]) != q,
                found ==> exists|k2: int|
                    0 <= k2 < n_uq && (#[trigger] uq@[k2]) == q && row == unsorted@[k2],
            decreases n_uq - f,
        {
            if uq[f] == q {
                row = unsorted[f];
                found = true;
            }
            f = f + 1;
        }
        proof {
            let p = choose|p: int| 0 <= p < mpairs@.len() && mpairs@[p] == sorted@[m as int];
            assert(uq@[p] == q);
            if !found {
                assert(uq@[p] != q);
                assert(false);
            }
            let k2 = choose|k2: int|
                0 <= k2 < n_uq && (#[trigger] uq@[k2]) == q && row == unsorted@[k2];
            assert(k2 == p);
            assert(row.3 == mpairs@[p].1);
        }
        rows.push(row);
        m = m + 1;
    }
    proof {
        assert forall|q: u32|
            pair_listed(bp@, q) || pair_listed(ip@, q) implies exists|k2: int|
            0 <= k2 < rows@.len() && (#[trigger] rows@[k2]).0 == q by {
            assert(uq@.contains(q));
            let k2 = choose|k2: int| 0 <= k2 < uq@.len() && uq@[k2] == q;
            assert(mpairs@[k2] == (uq@[k2], unsorted@[k2].3));
            assert(mpairs@.contains(mpairs@[k2]));
            assert(sorted@.contains(mpairs@[k2]));
            let m2 = choose|m2: int| 0 <= m2 < sorted@.len() && sorted@[m2] == mpairs@[k2];
            assert(rows@[m2].0 == q);
        }
        assert forall|k1: int, k2: int|
            0 <= k1 < k2 < rows@.len() implies ((rows@[k1].3) > (rows@[k2].3) || ((rows@[k1].3) == (
            rows@[k2].3) && (rows@[k1].0) <= (rows@[k2].0))) by {
            assert(rank_precedes(sorted@[k1], sorted@[k2]));
        }
        assert forall|k: int| 0 <= k < rows@.len() implies (pair_listed(
            bp@,
            (#[trigger] rows@[k]).0,
        ) || pair_listed(ip@, rows@[k].0)) by {
            assert(sorted@.contains(sorted@[k]));
            let p = choose|p: int| 0 <= p < mpairs@.len() && mpairs@[p] == sorted@[k];
            assert(uq@[p] == rows@[k].0);
        }
    }
    rows
}

} // verus!

verus! {

/// One category's change between the two windows.
#[derive(Clone, Copy, PartialEq, Eq, Structural, Debug)]
pub struct CategoryDeltaItem {
    pub category_qid: u32,
    pub baseline_views: u64,
    pub impact_views: u64,
    /// `|impact_views - baseline_views|`; the direction is read off the two
    /// absolute fields.
    pub delta_magnitude: u64,
}

/// One article's change between the two windows.
#[derive(Clone, Copy, PartialEq, Eq, Structural, Debug)]
pub struct ArticleDeltaItem {
    pub article_qid: u32,
    pub baseline_views: u64,
    pub impact_views: u64,
    pub delta_magnitude: u64,
}

pub open spec fn cat_rows(s: Seq<CategoryDeltaItem>) -> Seq<(u32, u64, u64, u64)> {
    s.map_values(
        |it: CategoryDeltaItem| (it.category_qid, it.baseline_views, it.impact_views, it.delta_magnitude),
    )
}

pub open spec fn art_rows(s: Seq<ArticleDeltaItem>) -> Seq<(u32, u64, u64, u64)> {
    s.map_values(
        |it: ArticleDeltaItem| (it.article_qid, it.baseline_views, it.impact_views, it.delta_magnitude),
    )
}

pub open spec fn cat_rank_listed(rl: Seq<CategoryRank>, q: u32) -> bool {
    exists|e: int| 0 <= e < rl.len() && (#[trigger] rl[e]).category_qid == q
}

pub open spec fn art_rank_listed(rl: Seq<ArticleRank>, q: u32) -> bool {
    exists|e: int| 0 <= e < rl.len() && (#[trigger] rl[e]).article_qid == q
}

/// A baseline or impact side entry for a category is either that category's
/// direct-membership score over the window or its depth-expanded trend sum
/// (the fill used when the category missed that side's ranking).
pub open spec fn cat_side_entry_ok(
    eng: &PageViewEngine,
    e: (u32, u64),
    start_date: Date,
    end_date: Date,
    depth: u8,
) -> bool {
    ||| exists|c: u32|
        (c as int) < eng.wikigraph.num_cats() && eng.wikigraph.cat_dense_to_original@[c as int]
            == e.0 && e.1 == capped(eng.cat_window_total(c, start_date, end_date))
    ||| e.1 == eng.set_window_sum_spec(
        eng.wikigraph.articles_in_category_spec(e.0, depth as int),
        start_date,
        end_date,
    )
}

/// A side entry for an article is its window total (an unknown article
/// counts zero).
pub open spec fn art_side_entry_ok(
    eng: &PageViewEngine,
    e: (u32, u64),
    start_date: Date,
    end_date: Date,
) -> bool {
    ||| exists|a: u32|
        (a as int) < eng.wikigraph.num_arts() && eng.wikigraph.art_dense_to_original@[a as int]
            == e.0 && e.1 == window_total_spec(eng.daily_views@, a, start_date, end_date)
    ||| (!eng.wikigraph.art_original_to_dense@.contains_key(e.0) && e.1 == 0)
}

/// Pushing an entry lists its qid and keeps the others.
proof fn lemma_pair_listed_push(s: Seq<(u32, u64)>, x: (u32, u64), q: u32)
    ensures
        pair_listed(s.push(x), q) <==> (pair_listed(s, q) || x.0 == q),
{
    lemma_pair_lookup_listed(s, q);
    lemma_pair_lookup_listed(s.push(x), q);
    if pair_listed(s.push(x), q) {
        let k = choose|k: int| 0 <= k < s.push(x).len() && (#[trigger] s.push(x)[k]).0 == q;
        if k < s.len() {
            assert(s[k].0 == q);
        }
    }
    if pair_listed(s, q) {
        let k = choose|k: int| 0 <= k < s.len() && (#[trigger] s[k]).0 == q;
        assert(s.push(x)[k].0 == q);
    }
    if x.0 == q {
        assert(s.push(x)[s.len() as int].0 == q);
    }
}

/// The list is a correct top-articles ranking for the category's article
/// pool over the window.
pub open spec fn art_ranking_ok(
    eng: &PageViewEngine,
    rl: Seq<ArticleRank>,
    category_qid: u32,
    depth: u8,
    start_date: Date,
    end_date: Date,
    limit: int,
) -> bool {
    exists|ds: Seq<u32>|
        eng.top_articles_ok(
            ds,
            rl,
            eng.wikigraph.articles_in_category_spec(category_qid, depth as int),
            start_date,
            end_date,
            limit,
        )
}

/// Period-delta analysis over the engine's windows.
pub struct DeltaService;

impl DeltaService {
    /// Fills one side's `(qid, total)` listing for a category delta: ranked
    /// entries first, then the other ranking's qids completed with their
    /// depth-expanded trend sums over this side's window.
    #[verifier::rlimit(60)]
    fn fill_category_side(
        engine: &PageViewEngine,
        own: &Vec<CategoryRank>,
        other: &Vec<CategoryRank>,
        start_date: Date,
        end_date: Date,
        depth: u8,
        Ghost(own_caps): Ghost<Seq<u32>>,
    ) -> (side: Vec<(u32, u64)>)
        requires
            engine.wf(),
            start_date.wf(),
            end_date.wf(),
            own_caps.len() == own@.len(),
            forall|e: int|
                0 <= e < own@.len() ==> ((#[trigger] own_caps[e]) as int)
                    < engine.wikigraph.num_cats() && own@[e].category_qid
                    == engine.wikigraph.cat_dense_to_original@[own_caps[e] as int]
                    && own@[e].total_views == capped(
                    engine.cat_window_total(own_caps[e], start_date, end_date),
                ),
        ensures
            forall|k: int, k2: int| 0 <= k < k2 < side@.len() ==> (side@[k].0) != (side@[k2].0),
            forall|k: int|
                0 <= k < side@.len() ==> cat_side_entry_ok(
                    engine,
                    #[trigger] side@[k],
                    start_date,
                    end_date,
                    depth,
                ),
            forall|q: u32|
                pair_listed(side@, q) <==> (cat_rank_listed(own@, q) || cat_rank_listed(
                    other@,
                    q,
                )),
    {
        let mut side: Vec<(u32, u64)> = Vec::new();
        let n_own = own.len();
        let mut e: usize = 0;
        while e < n_own
            invariant
                engine.wf(),
                start_date.wf(),
                end_date.wf(),
                n_own == own@.len(),
                e <= n_own,
                own_caps.len() == own@.len(),
                forall|e2: int|
                    0 <= e2 < own@.len() ==> ((#[trigger] own_caps[e2]) as int)
                        < engine.wikigraph.num_cats() && own@[e2].category_qid
                        == engine.wikigraph.cat_dense_to_original@[own_caps[e2] as int]
                        && own@[e2].total_views == capped(
                        engine.cat_window_total(own_caps[e2], start_date, end_date),
                    ),
                forall|k: int, k2: int|
                    0 <= k < k2 < side@.len() ==> (side@[k].0) != (side@[k2].0),
                forall|k: int|
                    0 <= k < side@.len() ==> cat_side_entry_ok(
                        engine,
                        #[trigger] side@[k],
                        start_date,
                        end_date,
                        depth,
                    ),
                forall|q: u32| pair_listed(side@, q) ==> cat_rank_listed(own@, q),
                forall|e2: int|
                    0 <= e2 < e ==> pair_listed(side@, (#[trigger] own@[e2]).category_qid),
            decreases n_own - e,
        {
            let q = own[e].category_qid;
            let already = match lookup_pair(&side, q) {
                Some(_) => true,
                None => false,
            };
            if !already {
                let ghost old_side = side@;
                side.push((q, own[e].total_views));
                proof {
                    lemma_pair_lookup_listed(old_side, q);
                    assert forall|q2: u32| pair_listed(side@, q2) implies cat_rank_listed(
                        own@,
                        q2,
                    ) by {
                        lemma_pair_listed_push(old_side, (q, own@[e as int].total_views), q2);
                        if q2 == q {
                            assert((#[trigger] own@[e as int]).category_qid == q2);
                        }
                    }
                    assert forall|e2: int| 0 <= e2 < e + 1 implies pair_listed(
                        side@,
                        (#[trigger] own@[e2]).category_qid,
                    ) by {
                        lemma_pair_listed_push(
                            old_side,
                            (q, own@[e as int].total_views),
                            own@[e2].category_qid,
                        );
                    }
                    assert forall|k: int, k2: int|
                        0 <= k < k2 < side@.len() implies (side@[k].0) != (side@[k2].0) by {
                        if k2 == side@.len() - 1 {
                            assert(!pair_listed(old_side, q));
                            lemma_pair_lookup_at(old_side, k);
                            assert(old_side[k].0 != q);
                        }
                    }
                    assert(cat_side_entry_ok(
                        engine,
                        (q, own@[e as int].total_views),
                        start_date,
                        end_date,
                        depth,
                    )) by {
                        let c = own_caps[e as int];
                        assert((c as int) < engine.wikigraph.num_cats()
                            && engine.wikigraph.cat_dense_to_original@[c as int] == q
                            && own@[e as int].total_views == capped(
                            engine.cat_window_total(c, start_date, end_date),
                        ));
                    }
                }
            } else {
                proof {
                    assert forall|e2: int| 0 <= e2 < e + 1 implies pair_listed(
                        side@,
                        (#[trigger] own@[e2]).category_qid,
                    ) by {}
                }
            }
            e = e + 1;
        }
        let n_other = other.len();
        let mut e2: usize = 0;
        while e2 < n_other
            invariant
                engine.wf(),
                start_date.wf(),
                end_date.wf(),
                n_other == other@.len(),
                e2 <= n_other,
                forall|k: int, k2: int|
                    0 <= k < k2 < side@.len() ==> (side@[k].0) != (side@[k2].0),
                forall|k: int|
                    0 <= k < side@.len() ==> cat_side_entry_ok(
                        engine,
                        #[trigger] side@[k],
                        start_date,
                        end_date,
                        depth,
                    ),
                forall|q: u32|
                    pair_listed(side@, q) ==> (cat_rank_listed(own@, q) || cat_rank_listed(
                        other@,
                        q,
                    )),
                forall|e3: int|
                    0 <= e3 < own@.len() ==> pair_listed(
                        side@,
                        (#[trigger] own@[e3]).category_qid,
                    ),
                forall|e3: int|
                    0 <= e3 < e2 ==> pair_listed(side@, (#[trigger] other@[e3]).category_qid),
            decreases n_other - e2,
        {
            let q = other[e2].category_qid;
            let already = match lookup_pair(&side, q) {
                Some(_) => true,
                None => false,
            };
            if !already {
                let arts_vec = engine.category_articles_sorted(q, depth);
                let fill = engine.window_set_total(
                    &arts_vec,
                    Ghost(engine.wikigraph.articles_in_category_spec(q, depth as int)),
                    start_date,
                    end_date,
                );
                let ghost old_side = side@;
                side.push((q, fill));
                proof {
                    lemma_pair_lookup_listed(old_side, q);
                    assert forall|q2: u32| pair_listed(side@, q2) implies (cat_rank_listed(
                        own@,
                        q2,
                    ) || cat_rank_listed(other@, q2)) by {
                        lemma_pair_listed_push(old_side, (q, fill), q2);
                        if q2 == q {
                            assert((#[trigger] other@[e2 as int]).category_qid == q2);
                        }
                    }
                    assert forall|e3: int| 0 <= e3 < own@.len() implies pair_listed(
                        side@,
                        (#[trigger] own@[e3]).category_qid,
                    ) by {
                        lemma_pair_listed_push(old_side, (q, fill), own@[e3].category_qid);
                    }
                    assert forall|e3: int| 0 <= e3 < e2 + 1 implies pair_listed(
                        side@,
                        (#[trigger] other@[e3]).category_qid,
                    ) by {
                        lemma_pair_listed_push(old_side, (q, fill), other@[e3].category_qid);
                    }
                    assert forall|k: int, k2: int|
                        0 <= k < k2 < side@.len() implies (side@[k].0) != (side@[k2].0) by {
                        if k2 == side@.len() - 1 {
                            assert(!pair_listed(old_side, q));
                            lemma_pair_lookup_at(old_side, k);
                            assert(old_side[k].0 != q);
                        }
                    }
                }
            } else {
                proof {
                    assert forall|e3: int| 0 <= e3 < e2 + 1 implies pair_listed(
                        side@,
                        (#[trigger] other@[e3]).category_qid,
                    ) by {}
                }
            }
            e2 = e2 + 1;
        }
        proof {
            assert forall|q: u32| (cat_rank_listed(own@, q) || cat_rank_listed(
                other@,
                q,
            )) implies pair_listed(side@, q) by {
                if cat_rank_listed(own@, q) {
                    let e3 = choose|e3: int|
                        0 <= e3 < own@.len() && (#[trigger] own@[e3]).category_qid == q;
                } else {
                    let e3 = choose|e3: int|
                        0 <= e3 < other@.len() && (#[trigger] other@[e3]).category_qid == q;
                }
            }
        }
        side
    }

    /// Top-N category changes between a baseline and an impact window: the
    /// union of both windows' top categories, each with its two windowed
    /// totals (ranked score, or depth-expanded trend sum where it missed a
    /// ranking) and the absolute change, biggest changes first.
    pub fn get_category_delta(
        engine: &PageViewEngine,
        baseline_start: Date,
        baseline_end: Date,
        impact_start: Date,
        impact_end: Date,
        limit: usize,
        depth: u8,
    ) -> (r: Vec<CategoryDeltaItem>)
        requires
            engine.wf(),
            baseline_start.wf(),
            baseline_end.wf(),
            impact_start.wf(),
            impact_end.wf(),
        ensures
            exists|rb: Seq<CategoryRank>, ri: Seq<CategoryRank>, bp: Seq<(u32, u64)>, ip: Seq<(u32, u64)>|
                {
                    &&& engine.top_categories_ok(rb, baseline_start, baseline_end, limit as int)
                    &&& engine.top_categories_ok(ri, impact_start, impact_end, limit as int)
                    &&& (forall|q: u32|
                        pair_listed(bp, q) <==> (cat_rank_listed(rb, q) || cat_rank_listed(ri, q)))
                    &&& (forall|q: u32|
                        pair_listed(ip, q) <==> (cat_rank_listed(rb, q) || cat_rank_listed(ri, q)))
                    &&& (forall|k: int|
                        0 <= k < bp.len() ==> cat_side_entry_ok(
                            engine,
                            #[trigger] bp[k],
                            baseline_start,
                            baseline_end,
                            depth,
                        ))
                    &&& (forall|k: int|
                        0 <= k < ip.len() ==> cat_side_entry_ok(
                            engine,
                            #[trigger] ip[k],
                            impact_start,
                            impact_end,
                            depth,
                        ))
                    &&& merged_ok(cat_rows(r@), bp, ip)
                },
    {
        let rbv = engine.compute_top_categories(baseline_start, baseline_end, limit);
        let riv = engine.compute_top_categories(impact_start, impact_end, limit);
        let ghost cs_b = choose|cs: Seq<u32>|
            {
                &&& (#[trigger] cs.len()) == rbv@.len()
                &&& forall|i: int, j: int| 0 <= i < j < cs.len() ==> cs[i] != cs[j]
                &&& forall|i: int|
                    0 <= i < cs.len() ==> {
                        &&& ((#[trigger] cs[i]) as int) < engine.wikigraph.num_cats()
                        &&& rbv@[i].category_qid
                            == engine.wikigraph.cat_dense_to_original@[cs[i] as int]
                        &&& rbv@[i].total_views == capped(
                            engine.cat_window_total(cs[i], baseline_start, baseline_end),
                        )
                        &&& rbv@[i].total_views > 0
                        &&& engine.cat_article_list_ok(
                            cs[i],
                            rbv@[i].top_articles@,
                            baseline_start,
                            baseline_end,
                            limit as int,
                        )
                    }
                &&& forall|i: int, j: int|
                    0 <= i < j < cs.len() ==> rank_precedes(
                        (cs[i], rbv@[i].total_views),
                        (cs[j], rbv@[j].total_views),
                    )
                &&& rbv@.len() <= limit as int
                &&& (rbv@.len() == limit as int || (forall|c: u32|
                    (c as int) < engine.wikigraph.num_cats() && #[trigger] capped(
                        engine.cat_window_total(c, baseline_start, baseline_end),
                    ) > 0 ==> cs.contains(c)))
                &&& forall|c: u32, i: int|
                    (c as int) < engine.wikigraph.num_cats() && #[trigger] capped(
                        engine.cat_window_total(c, baseline_start, baseline_end),
                    ) > 0 && !cs.contains(c) && 0 <= i < cs.len() ==> rank_precedes(
                        ((#[trigger] cs[i]), rbv@[i].total_views),
                        (
                            c,
                            capped(
                                engine.cat_window_total(c, baseline_start, baseline_end),
                            ) as u64,
                        ),
                    )
            };
        let ghost cs_i = choose|cs: Seq<u32>|
            {
                &&& (#[trigger] cs.len()) == riv@.len()
                &&& forall|i: int, j: int| 0 <= i < j < cs.len() ==> cs[i] != cs[j]
                &&& forall|i: int|
                    0 <= i < cs.len() ==> {
                        &&& ((#[trigger] cs[i]) as int) < engine.wikigraph.num_cats()
                        &&& riv@[i].category_qid
                            == engine.wikigraph.cat_dense_to_original@[cs[i] as int]
                        &&& riv@[i].total_views == capped(
                            engine.cat_window_total(cs[i], impact_start, impact_end),
                        )
                        &&& riv@[i].total_views > 0
                        &&& engine.cat_article_list_ok(
                            cs[i],
                            riv@[i].top_articles@,
                            impact_start,
                            impact_end,
                            limit as int,
                        )
                    }
                &&& forall|i: int, j: int|
                    0 <= i < j < cs.len() ==> rank_precedes(
                        (cs[i], riv@[i].total_views),
                        (cs[j], riv@[j].total_views),
                    )
                &&& riv@.len() <= limit as int
                &&& (riv@.len() == limit as int || (forall|c: u32|
                    (c as int) < engine.wikigraph.num_cats() && #[trigger] capped(
                        engine.cat_window_total(c, impact_start, impact_end),
                    ) > 0 ==> cs.contains(c)))
                &&& forall|c: u32, i: int|
                    (c as int) < engine.wikigraph.num_cats() && #[trigger] capped(
                        engine.cat_window_total(c, impact_start, impact_end),
                    ) > 0 && !cs.contains(c) && 0 <= i < cs.len() ==> rank_precedes(
                        ((#[trigger] cs[i]), riv@[i].total_views),
                        (
                            c,
                            capped(engine.cat_window_total(c, impact_start, impact_end)) as u64,
                        ),
                    )
            };
        let bp = Self::fill_category_side(
            engine,
            &rbv,
            &riv,
            baseline_start,
            baseline_end,
            depth,
            Ghost(cs_b),
        );
        let ip = Self::fill_category_side(
            engine,
            &riv,
            &rbv,
            impact_start,
            impact_end,
            depth,
            Ghost(cs_i),
        );
        let rows = merge_sides(&bp, &ip);
        let mut r: Vec<CategoryDeltaItem> = Vec::new();
        let n_rows = rows.len();
        let mut k: usize = 0;
        while k < n_rows
            invariant
                n_rows == rows@.len(),
                k <= n_rows,
                r@.len() == k,
                forall|k2: int|
                    0 <= k2 < k ==> ((#[trigger] r@[k2]).category_qid, r@[k2].baseline_views,
                    r@[k2].impact_views, r@[k2].delta_magnitude) == rows@[k2],
            decreases n_rows - k,
        {
            let (q, b, i, mag) = rows[k];
            r.push(
                CategoryDeltaItem {
                    category_qid: q,
                    baseline_views: b,
                    impact_views: i,
                    delta_magnitude: mag,
                },
            );
            k = k + 1;
        }
        proof {
            assert(cat_rows(r@) =~= rows@);
            assert forall|q: u32| pair_listed(ip@, q) implies (cat_rank_listed(rbv@, q)
                || cat_rank_listed(riv@, q)) by {}
        }
        r
    }
}

} // verus!

verus! {

impl DeltaService {
    /// Fills one side's `(qid, total)` listing for an article delta.
    #[verifier::rlimit(60)]
    fn fill_article_side(
        engine: &PageViewEngine,
        own: &Vec<ArticleRank>,
        other: &Vec<ArticleRank>,
        start_date: Date,
        end_date: Date,
        Ghost(own_ds): Ghost<Seq<u32>>,
    ) -> (side: Vec<(u32, u64)>)
        requires
            engine.wf(),
            start_date.wf(),
            end_date.wf(),
            own_ds.len() == own@.len(),
            forall|e: int|
                0 <= e < own@.len() ==> ((#[trigger] own_ds[e]) as int)
                    < engine.wikigraph.num_arts() && own@[e].article_qid
                    == engine.wikigraph.art_dense_to_original@[own_ds[e] as int]
                    && own@[e].total_views == window_total_spec(
                    engine.daily_views@,
                    own_ds[e],
                    start_date,
                    end_date,
                ),
        ensures
            forall|k: int, k2: int| 0 <= k < k2 < side@.len() ==> (side@[k].0) != (side@[k2].0),
            forall|k: int|
                0 <= k < side@.len() ==> art_side_entry_ok(
                    engine,
                    #[trigger] side@[k],
                    start_date,
                    end_date,
                ),
            forall|q: u32|
                pair_listed(side@, q) <==> (art_rank_listed(own@, q) || art_rank_listed(
                    other@,
                    q,
                )),
    {
        let mut side: Vec<(u32, u64)> = Vec::new();
        let n_own = own.len();
        let mut e: usize = 0;
        while e < n_own
            invariant
                engine.wf(),
                start_date.wf(),
                end_date.wf(),
                n_own == own@.len(),
                e <= n_own,
                own_ds.len() == own@.len(),
                forall|e2: int|
                    0 <= e2 < own@.len() ==> ((#[trigger] own_ds[e2]) as int)
                        < engine.wikigraph.num_arts() && own@[e2].article_qid
                        == engine.wikigraph.art_dense_to_original@[own_ds[e2] as int]
                        && own@[e2].total_views == window_total_spec(
                        engine.daily_views@,
                        own_ds[e2],
                        start_date,
                        end_date,
                    ),
                forall|k: int, k2: int|
                    0 <= k < k2 < side@.len() ==> (side@[k].0) != (side@[k2].0),
                forall|k: int|
                    0 <= k < side@.len() ==> art_side_entry_ok(
                        engine,
                        #[trigger] side@[k],
                        start_date,
                        end_date,
                    ),
                forall|q: u32| pair_listed(side@, q) ==> art_rank_listed(own@, q),
                forall|e2: int|
                    0 <= e2 < e ==> pair_listed(side@, (#[trigger] own@[e2]).article_qid),
            decreases n_own - e,
        {
            let q = own[e].article_qid;
            let already = match lookup_pair(&side, q) {
                Some(_) => true,
                None => false,
            };
            if !already {
                let ghost old_side = side@;
                side.push((q, own[e].total_views));
                proof {
                    lemma_pair_lookup_listed(old_side, q);
                    assert forall|q2: u32| pair_listed(side@, q2) implies art_rank_listed(
                        own@,
                        q2,
                    ) by {
                        lemma_pair_listed_push(old_side, (q, own@[e as int].total_views), q2);
                        if q2 == q {
                            assert((#[trigger] own@[e as int]).article_qid == q2);
                        }
                    }
                    assert forall|e2: int| 0 <= e2 < e + 1 implies pair_listed(
                        side@,
                        (#[trigger] own@[e2]).article_qid,
                    ) by {
                        lemma_pair_listed_push(
                            old_side,
                            (q, own@[e as int].total_views),
                            own@[e2].article_qid,
                        );
                    }
                    assert forall|k: int, k2: int|
                        0 <= k < k2 < side@.len() implies (side@[k].0) != (side@[k2].0) by {
                        if k2 == side@.len() - 1 {
                            assert(!pair_listed(old_side, q));
                            lemma_pair_lookup_at(old_side, k);
                            assert(old_side[k].0 != q);
                        }
                    }
                    assert(art_side_entry_ok(
                        engine,
                        (q, own@[e as int].total_views),
                        start_date,
                        end_date,
                    )) by {
                        let a = own_ds[e as int];
                        assert((a as int) < engine.wikigraph.num_arts()
                            && engine.wikigraph.art_dense_to_original@[a as int] == q
                            && own@[e as int].total_views == window_total_spec(
                            engine.daily_views@,
                            a,
                            start_date,
                            end_date,
                        ));
                    }
                }
            } else {
                proof {
                    assert forall|e2: int| 0 <= e2 < e + 1 implies pair_listed(
                        side@,
                        (#[trigger] own@[e2]).article_qid,
                    ) by {}
                }
            }
            e = e + 1;
        }
        let n_other = other.len();
        let mut e2: usize = 0;
        while e2 < n_other
            invariant
                engine.wf(),
                start_date.wf(),
                end_date.wf(),
                n_other == other@.len(),
                e2 <= n_other,
                forall|k: int, k2: int|
                    0 <= k < k2 < side@.len() ==> (side@[k].0) != (side@[k2].0),
                forall|k: int|
                    0 <= k < side@.len() ==> art_side_entry_ok(
                        engine,
                        #[trigger] side@[k],
                        start_date,
                        end_date,
                    ),
                forall|q: u32|
                    pair_listed(side@, q) ==> (art_rank_listed(own@, q) || art_rank_listed(
                        other@,
                        q,
                    )),
                forall|e3: int|
                    0 <= e3 < own@.len() ==> pair_listed(
                        side@,
                        (#[trigger] own@[e3]).article_qid,
                    ),
                forall|e3: int|
                    0 <= e3 < e2 ==> pair_listed(side@, (#[trigger] other@[e3]).article_qid),
            decreases n_other - e2,
        {
            let q = other[e2].article_qid;
            let already = match lookup_pair(&side, q) {
                Some(_) => true,
                None => false,
            };
            if !already {
                let fill = match engine.wikigraph.art_original_to_dense.get(q) {
                    Some(dense) => engine.article_window_total(dense, start_date, end_date),
                    None => 0,
                };
                let ghost old_side = side@;
                side.push((q, fill));
                proof {
                    lemma_pair_lookup_listed(old_side, q);
                    assert(art_side_entry_ok(engine, (q, fill), start_date, end_date)) by {
                        if engine.wikigraph.art_original_to_dense@.contains_key(q) {
                            let a = engine.wikigraph.art_original_to_dense@[q];
                            assert((a as int) < engine.wikigraph.num_arts()
                                && engine.wikigraph.art_dense_to_original@[a as int] == q && fill
                                == window_total_spec(
                                engine.daily_views@,
                                a,
                                start_date,
                                end_date,
                            ));
                        }
                    }
                    assert forall|q2: u32| pair_listed(side@, q2) implies (art_rank_listed(
                        own@,
                        q2,
                    ) || art_rank_listed(other@, q2)) by {
                        lemma_pair_listed_push(old_side, (q, fill), q2);
                        if q2 == q {
                            assert((#[trigger] other@[e2 as int]).article_qid == q2);
                        }
                    }
                    assert forall|e3: int| 0 <= e3 < own@.len() implies pair_listed(
                        side@,
                        (#[trigger] own@[e3]).article_qid,
                    ) by {
                        lemma_pair_listed_push(old_side, (q, fill), own@[e3].article_qid);
                    }
                    assert forall|e3: int| 0 <= e3 < e2 + 1 implies pair_listed(
                        side@,
                        (#[trigger] other@[e3]).article_qid,
                    ) by {
                        lemma_pair_listed_push(old_side, (q, fill), other@[e3].article_qid);
                    }
                    assert forall|k: int, k2: int|
                        0 <= k < k2 < side@.len() implies (side@[k].0) != (side@[k2].0) by {
                        if k2 == side@.len() - 1 {
                            assert(!pair_listed(old_side, q));
                            lemma_pair_lookup_at(old_side, k);
                            assert(old_side[k].0 != q);
                        }
                    }
                }
            } else {
                proof {
                    assert forall|e3: int| 0 <= e3 < e2 + 1 implies pair_listed(
                        side@,
                        (#[trigger] other@[e3]).article_qid,
                    ) by {}
                }
            }
            e2 = e2 + 1;
        }
        proof {
            assert forall|q: u32| (art_rank_listed(own@, q) || art_rank_listed(
                other@,
                q,
            )) implies pair_listed(side@, q) by {
                if art_rank_listed(own@, q) {
                    let e3 = choose|e3: int|
                        0 <= e3 < own@.len() && (#[trigger] own@[e3]).article_qid == q;
                } else {
                    let e3 = choose|e3: int|
                        0 <= e3 < other@.len() && (#[trigger] other@[e3]).article_qid == q;
                }
            }
        }
        side
    }

    /// Top-N article changes within a category between a baseline and an
    /// impact window: the union of both windows' top articles, each with
    /// its two windowed totals and the absolute change, biggest changes
    /// first.
    pub fn get_article_delta(
        engine: &PageViewEngine,
        category_qid: u32,
        baseline_start: Date,
        baseline_end: Date,
        impact_start: Date,
        impact_end: Date,
        limit: usize,
        depth: u8,
    ) -> (r: Vec<ArticleDeltaItem>)
        requires
            engine.wf(),
            baseline_start.wf(),
            baseline_end.wf(),
            impact_start.wf(),
            impact_end.wf(),
        ensures
            exists|rb: Seq<ArticleRank>, ri: Seq<ArticleRank>, bp: Seq<(u32, u64)>, ip: Seq<(u32, u64)>|
                {
                    &&& merged_ok(art_rows(r@), bp, ip)
                    &&& art_ranking_ok(
                        engine,
                        rb,
                        category_qid,
                        depth,
                        baseline_start,
                        baseline_end,
                        limit as int,
                    )
                    &&& art_ranking_ok(
                        engine,
                        ri,
                        category_qid,
                        depth,
                        impact_start,
                        impact_end,
                        limit as int,
                    )
                    &&& (forall|q: u32|
                        pair_listed(bp, q) <==> (art_rank_listed(rb, q) || art_rank_listed(ri, q)))
                    &&& (forall|q: u32|
                        pair_listed(ip, q) <==> (art_rank_listed(rb, q) || art_rank_listed(ri, q)))
                    &&& (forall|k: int|
                        0 <= k < bp.len() ==> art_side_entry_ok(
                            engine,
                            #[trigger] bp[k],
                            baseline_start,
                            baseline_end,
                        ))
                    &&& (forall|k: int|
                        0 <= k < ip.len() ==> art_side_entry_ok(
                            engine,
                            #[trigger] ip[k],
                            impact_start,
                            impact_end,
                        ))
                },
    {
        let rb_rank = engine.get_top_articles_in_category(
            category_qid,
            baseline_start,
            baseline_end,
            depth,
            limit,
        );
        let ri_rank = engine.get_top_articles_in_category(
            category_qid,
            impact_start,
            impact_end,
            depth,
            limit,
        );
        let rbv = rb_rank.top_articles;
        let riv = ri_rank.top_articles;
        let ghost pool = engine.wikigraph.articles_in_category_spec(category_qid, depth as int);
        let ghost ds_b = choose|ds: Seq<u32>|
            engine.top_articles_ok(ds, rbv@, pool, baseline_start, baseline_end, limit as int);
        let ghost ds_i = choose|ds: Seq<u32>|
            engine.top_articles_ok(ds, riv@, pool, impact_start, impact_end, limit as int);
        let bp = Self::fill_article_side(
            engine,
            &rbv,
            &riv,
            baseline_start,
            baseline_end,
            Ghost(ds_b),
        );
        let ip = Self::fill_article_side(
            engine,
            &riv,
            &rbv,
            impact_start,
            impact_end,
            Ghost(ds_i),
        );
        let rows = merge_sides(&bp, &ip);
        let mut r: Vec<ArticleDeltaItem> = Vec::new();
        let n_rows = rows.len();
        let mut k: usize = 0;
        while k < n_rows
            invariant
                n_rows == rows@.len(),
                k <= n_rows,
                r@.len() == k,
                forall|k2: int|
                    0 <= k2 < k ==> ((#[trigger] r@[k2]).article_qid, r@[k2].baseline_views,
                    r@[k2].impact_views, r@[k2].delta_magnitude) == rows@[k2],
            decreases n_rows - k,
        {
            let (q, b, i, mag) = rows[k];
            r.push(
                ArticleDeltaItem {
                    article_qid: q,
                    baseline_views: b,
                    impact_views: i,
                    delta_magnitude: mag,
                },
            );
            k = k + 1;
        }
        proof {
            assert(art_rows(r@) =~= rows@);
            assert(art_ranking_ok(
                engine,
                rbv@,
                category_qid,
                depth,
                baseline_start,
                baseline_end,
                limit as int,
            )) by {
                assert(engine.top_articles_ok(
                    ds_b,
                    rbv@,
                    pool,
                    baseline_start,
                    baseline_end,
                    limit as int,
                ));
            }
            assert(art_ranking_ok(
                engine,
                riv@,
                category_qid,
                depth,
                impact_start,
                impact_end,
                limit as int,
            )) by {
                assert(engine.top_articles_ok(
                    ds_i,
                    riv@,
                    pool,
                    impact_start,
                    impact_end,
                    limit as int,
                ));
            }
            assert(merged_ok(art_rows(r@), bp@, ip@));
        }
        r
    }
}

} // verus!
