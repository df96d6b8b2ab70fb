//! The page-view engine: fuses the graph topology with day-indexed dense
//! view vectors to answer trend, top-N and delta queries.
//!
//! Day vectors are adopted from the caller (who reads and decodes the binary
//! day files); a date with no vector contributes zero views to every
//! aggregate.  The most expensive query, top categories over a window, is
//! protected by a TTL cache.

use crate::bitmap::bitmap_elems;
use crate::bitmap::bitmap_to_vec;
use crate::date::Date;
use crate::wikigraph::reach;
use crate::wikigraph::WikiGraph;
use std::collections::HashMap;
use vstd::prelude::*;

verus! {

broadcast use vstd::std_specs::hash::group_hash_axioms;

/// One article's total views over a window.
#[derive(Clone, Copy, PartialEq, Eq, Structural, Debug)]
pub struct ArticleRank {
    pub article_qid: u32,
    pub total_views: u64,
}

/// One category's total views over a window, with its top articles.
#[derive(Debug)]
pub struct CategoryRank {
    pub category_qid: u32,
    pub total_views: u64,
    pub top_articles: Vec<ArticleRank>,
}

impl View for CategoryRank {
    type V = (u32, u64, Seq<ArticleRank>);

    open spec fn view(&self) -> (u32, u64, Seq<ArticleRank>) {
        (self.category_qid, self.total_views, self.top_articles@)
    }
}

/// The mathematical content of a ranking, article lists included.
pub open spec fn ranks_view(s: Seq<CategoryRank>) -> Seq<(u32, u64, Seq<ArticleRank>)> {
    s.map_values(|r: CategoryRank| r@)
}

/// An exact copy of a ranking.
fn clone_ranks(v: &Vec<CategoryRank>) -> (r: Vec<CategoryRank>)
    ensures
        ranks_view(r@) == ranks_view(v@),
{
    let mut r: Vec<CategoryRank> = Vec::new();
    let mut i: usize = 0;
    while i < v.len()
        invariant
            i <= v@.len(),
            r@.len() == i,
            forall|k: int| 0 <= k < i ==> (#[trigger] r@[k])@ == v@[k]@,
        decreases v@.len() - i,
    {
        let src = &v[i];
        let mut arts: Vec<ArticleRank> = Vec::new();
        let mut j: usize = 0;
        while j < src.top_articles.len()
            invariant
                j <= src.top_articles@.len(),
                arts@.len() == j,
                forall|k: int| 0 <= k < j ==> arts@[k] == src.top_articles@[k],
            decreases src.top_articles@.len() - j,
        {
            arts.push(src.top_articles[j]);
            j = j + 1;
        }
        proof {
            assert(arts@ =~= src.top_articles@);
        }
        r.push(
            CategoryRank {
                category_qid: src.category_qid,
                total_views: src.total_views,
                top_articles: arts,
            },
        );
        i = i + 1;
    }
    proof {
        assert(ranks_view(r@) =~= ranks_view(v@));
    }
    r
}

/// The key a day vector is stored under: an injective packing of the date.
pub open spec fn date_key_spec(d: Date) -> int {
    d.year * 512 + d.month * 32 + d.day
}

/// Distinct valid dates pack to distinct keys.
pub proof fn lemma_date_key_injective(a: Date, b: Date)
    requires
        a.wf(),
        b.wf(),
        date_key_spec(a) == date_key_spec(b),
    ensures
        a == b,
{
}

fn date_key(d: Date) -> (r: u32)
    requires
        d.wf(),
    ensures
        r == date_key_spec(d),
{
    (d.year as u32) * 512 + (d.month as u32) * 32 + (d.day as u32)
}

/// Views of the articles of `arts` on one day vector: the sum of `day[i]`
/// over the indices `i` the set holds.
pub open spec fn masked_sum(day: Seq<u32>, arts: Set<u32>) -> int
    decreases day.len(),
{
    if day.len() == 0 {
        0
    } else {
        masked_sum(day.drop_last(), arts) + if arts.contains((day.len() - 1) as u32) {
            day.last() as int
        } else {
            0int
        }
    }
}

/// The same sum driven by an enumeration of the article ids.
spec fn views_sum(day: Seq<u32>, arts: Seq<u32>) -> int
    decreases arts.len(),
{
    if arts.len() == 0 {
        0
    } else {
        views_sum(day, arts.drop_last()) + if (arts.last() as int) < day.len() {
            day[arts.last() as int] as int
        } else {
            0int
        }
    }
}

proof fn lemma_masked_sum_empty(day: Seq<u32>, arts: Set<u32>)
    requires
        forall|v: u32| !arts.contains(v),
    ensures
        masked_sum(day, arts) == 0,
    decreases day.len(),
{
    if day.len() > 0 {
        lemma_masked_sum_empty(day.drop_last(), arts);
    }
}

proof fn lemma_masked_sum_remove(day: Seq<u32>, arts: Set<u32>, m: u32)
    requires
        day.len() <= u32::MAX,
    ensures
        masked_sum(day, arts) == masked_sum(day, arts.remove(m)) + if arts.contains(m) && m
            < day.len() {
            day[m as int] as int
        } else {
            0int
        },
    decreases day.len(),
{
    if day.len() > 0 {
        lemma_masked_sum_remove(day.drop_last(), arts, m);
    }
}

/// In a strictly ascending sequence, the entry at position `i` is at least
/// `i`; in particular the last entry bounds all the others.
proof fn lemma_views_sum_eq_masked(day: Seq<u32>, arts: Seq<u32>, s: Set<u32>)
    requires
        day.len() <= u32::MAX,
        forall|i: int, j: int| 0 <= i < j < arts.len() ==> arts[i] < arts[j],
        forall|v: u32| arts.contains(v) <==> s.contains(v),
    ensures
        views_sum(day, arts) == masked_sum(day, s),
    decreases arts.len(),
{
    if arts.len() == 0 {
        assert forall|v: u32| !s.contains(v) by {
            assert(!arts.contains(v));
        }
        lemma_masked_sum_empty(day, s);
    } else {
        let m = arts.last();
        let s2 = s.remove(m);
        let arts2 = arts.drop_last();
        assert(arts.contains(m)) by {
            assert(arts[arts.len() - 1] == m);
        }
        assert forall|v: u32| arts2.contains(v) <==> s2.contains(v) by {
            if arts2.contains(v) {
                let i = choose|i: int| 0 <= i < arts2.len() && arts2[i] == v;
                assert(arts[i] == v);
                assert(arts.contains(v));
                assert(v < m);
            }
            if s2.contains(v) {
                assert(arts.contains(v));
                let i = choose|i: int| 0 <= i < arts.len() && arts[i] == v;
                assert(i != arts.len() - 1);
                assert(arts2[i] == v);
            }
        }
        lemma_views_sum_eq_masked(day, arts2, s2);
        lemma_masked_sum_remove(day, s, m);
    }
}

/// Per-day views of one article: the day vector's entry at its dense id, or
/// zero when the day is absent or the vector too short.
pub open spec fn day_view_spec(views: Map<u32, Vec<u32>>, date: Date, a: u32) -> int {
    let key = date_key_spec(date) as u32;
    if views.contains_key(key) {
        if (a as int) < views[key]@.len() {
            views[key]@[a as int] as int
        } else {
            0
        }
    } else {
        0
    }
}

/// The TTL cache and the engine itself are defined further below.
pub struct PageViewEngine {
    pub wiki: String,
    /// Date key -> dense per-article view vector for that day.
    pub daily_views: HashMap<u32, Vec<u32>>,
    pub wikigraph: WikiGraph,
    pub top_categories_cache: TopCategoriesCache,
}

/// What the cache stores under one `(start, end, top_n)` key.
pub struct TopCategoriesCacheEntry {
    pub data: Vec<CategoryRank>,
    /// Seconds timestamp of creation.
    pub created_at: u64,
    /// Seconds to live, derived from how recent the window's end is.
    pub ttl: u64,
}

/// Cache key for a top-categories query.
#[derive(Clone, Copy, PartialEq, Eq, Structural, Debug)]
pub struct TopCategoriesCacheKey {
    pub start: Date,
    pub end: Date,
    pub top_n: usize,
}

/// The query cache for the most expensive operation.  Entries live until
/// their TTL passes; expired entries are swept opportunistically on insert.
pub struct TopCategoriesCache {
    pub entries: Vec<(TopCategoriesCacheKey, TopCategoriesCacheEntry)>,
    /// Seconds timestamp of the last sweep.
    pub last_cleanup: u64,
}

impl PageViewEngine {
    /// Every stored day vector indexes within the `u32` dense-id space, the
    /// graph is sound, and the cache holds each key at most once.
    pub open spec fn wf(&self) -> bool {
        &&& self.wikigraph.wf()
        &&& self.top_categories_cache.wf()
        &&& forall|k: u32|
            #[trigger] self.daily_views@.contains_key(k) ==> self.daily_views@[k]@.len()
                <= u32::MAX
    }

    /// Views of the articles of `arts` on `date`; zero when the day has no
    /// vector.
    pub open spec fn day_total_spec(&self, date: Date, arts: Set<u32>) -> int {
        let key = date_key_spec(date) as u32;
        if self.daily_views@.contains_key(key) {
            masked_sum(self.daily_views@[key]@, arts)
        } else {
            0
        }
    }

    /// Creates an engine over an already built graph, with no day vectors
    /// loaded and an empty cache.
    pub fn new(wiki: &str, graph: WikiGraph) -> (r: Self)
        requires
            graph.wf(),
        ensures
            r.wf(),
            r.wiki@ == wiki@,
            r.wikigraph == graph,
            r.daily_views@ == Map::<u32, Vec<u32>>::empty(),
            r.top_categories_cache.entries@.len() == 0,
    {
        PageViewEngine {
            wiki: wiki.to_owned(),
            daily_views: HashMap::new(),
            wikigraph: graph,
            top_categories_cache: TopCategoriesCache { entries: Vec::new(), last_cleanup: 0 },
        }
    }

    pub fn get_wikigraph(&self) -> (r: &WikiGraph)
        ensures
            r == &self.wikigraph,
    {
        &self.wikigraph
    }

    /// Adopts a decoded day vector for `date`.  Returns whether the vector's
    /// length matches the article count; on a mismatch the vector is still
    /// adopted, and reads past its end count as zero.
    pub fn insert_day(&mut self, date: Date, views: Vec<u32>) -> (size_matches: bool)
        requires
            old(self).wf(),
            date.wf(),
            views@.len() <= u32::MAX,
        ensures
            final(self).wf(),
            final(self).wikigraph == old(self).wikigraph,
            final(self).top_categories_cache == old(self).top_categories_cache,
            final(self).daily_views@ == old(self).daily_views@.insert(
                date_key_spec(date) as u32,
                views,
            ),
            size_matches == (views@.len() == old(self).wikigraph.num_arts()),
    {
        let size_matches = views.len() == self.wikigraph.art_dense_to_original.len();
        let key = date_key(date);
        self.daily_views.insert(key, views);
        size_matches
    }

    /// Whether a day vector is loaded for `date`.
    pub fn has_day(&self, date: Date) -> (r: bool)
        requires
            date.wf(),
        ensures
            r == self.daily_views@.contains_key(date_key_spec(date) as u32),
    {
        let key = date_key(date);
        self.daily_views.contains_key(&key)
    }

    /// Sums the views of the articles in `arts_vec` (a strictly ascending
    /// enumeration of the ghost set `arts`) on one date.
    pub(crate) fn sum_day(&self, date: Date, arts_vec: &Vec<u32>, Ghost(arts): Ghost<Set<u32>>) -> (total:
        u64)
        requires
            self.wf(),
            date.wf(),
            forall|i: int, j: int| 0 <= i < j < arts_vec@.len() ==> arts_vec@[i] < arts_vec@[j],
            forall|v: u32| arts_vec@.contains(v) <==> arts.contains(v),
            arts_vec@.len() <= u32::MAX,
        ensures
            total == self.day_total_spec(date, arts),
    {
        let key = date_key(date);
        let mut total: u64 = 0;
        match self.daily_views.get(&key) {
            Some(day_vec) => {
                let n = arts_vec.len();
                let mut i: usize = 0;
                while i < n
                    invariant
                        n == arts_vec@.len(),
                        n <= u32::MAX,
                        i <= n,
                        total == views_sum(day_vec@, arts_vec@.take(i as int)),
                        total <= i * 0xFFFF_FFFFu64,
                    decreases n - i,
                {
                    let a = arts_vec[i];
                    proof {
                        assert(arts_vec@.take(i as int + 1).drop_last() =~= arts_vec@.take(
                            i as int,
                        ));
                        assert(arts_vec@.take(i as int + 1).last() == arts_vec@[i as int]);
                    }
                    if (a as usize) < day_vec.len() {
                        total = total + day_vec[a as usize] as u64;
                    }
                    i = i + 1;
                }
                proof {
                    assert(arts_vec@.take(n as int) =~= arts_vec@);
                    lemma_views_sum_eq_masked(day_vec@, arts_vec@, arts);
                }
            },
            None => {},
        }
        total
    }

    /// The per-day totals of a fixed article set over the window
    /// `[start, end]`, one `(date, total)` pair per day in calendar order;
    /// empty when the window is.
    fn trend_window(
        &self,
        arts_vec: &Vec<u32>,
        Ghost(arts): Ghost<Set<u32>>,
        start_date: Date,
        end_date: Date,
    ) -> (r: Vec<(Date, u64)>)
        requires
            self.wf(),
            start_date.wf(),
            end_date.wf(),
            forall|i: int, j: int| 0 <= i < j < arts_vec@.len() ==> arts_vec@[i] < arts_vec@[j],
            forall|v: u32| arts_vec@.contains(v) <==> arts.contains(v),
            arts_vec@.len() <= u32::MAX,
        ensures
            !start_date.le_spec(end_date) ==> r@.len() == 0,
            start_date.le_spec(end_date) ==> {
                &&& r@.len() == end_date.day_number_spec() - start_date.day_number_spec() + 1
                &&& forall|i: int|
                    0 <= i < r@.len() ==> {
                        &&& (#[trigger] r@[i]).0.wf()
                        &&& r@[i].0.day_number_spec() == start_date.day_number_spec() + i
                        &&& r@[i].1 == self.day_total_spec(r@[i].0, arts)
                    }
            },
    {
        let mut r: Vec<(Date, u64)> = Vec::new();
        if !start_date.le(&end_date) {
            return r;
        }
        proof {
            start_date.lemma_le_day_number(end_date);
        }
        let n_days: u32 = end_date.day_number() - start_date.day_number();
        let mut k: u32 = 0;
        let mut curr = start_date;
        while k <= n_days
            invariant
                self.wf(),
                start_date.wf(),
                end_date.wf(),
                forall|i: int, j: int| 0 <= i < j < arts_vec@.len() ==> arts_vec@[i] < arts_vec@[j],
                forall|v: u32| arts_vec@.contains(v) <==> arts.contains(v),
                arts_vec@.len() <= u32::MAX,
                n_days == end_date.day_number_spec() - start_date.day_number_spec(),
                k <= n_days + 1,
                k <= n_days ==> curr.wf() && curr.day_number_spec() == start_date.day_number_spec()
                    + k && curr.le_spec(end_date),
                r@.len() == k,
                forall|i: int|
                    0 <= i < r@.len() ==> {
                        &&& (#[trigger] r@[i]).0.wf()
                        &&& r@[i].0.day_number_spec() == start_date.day_number_spec() + i
                        &&& r@[i].1 == self.day_total_spec(r@[i].0, arts)
                    },
            decreases n_days + 1 - k,
        {
            let total = self.sum_day(curr, arts_vec, Ghost(arts));
            r.push((curr, total));
            if k < n_days {
                proof {
                    curr.lemma_le_day_number(end_date);
                    curr.lemma_succ_le(end_date);
                }
                curr = curr.succ();
            }
            k = k + 1;
        }
        r
    }

    /// The dense article set under a category, enumerated in ascending
    /// order, ready for day-vector sweeps.
    pub(crate) fn category_articles_sorted(&self, category_qid: u32, depth: u8) -> (r: Vec<u32>)
        requires
            self.wf(),
        ensures
            forall|i: int, j: int| 0 <= i < j < r@.len() ==> r@[i] < r@[j],
            forall|v: u32|
                r@.contains(v) <==> self.wikigraph.articles_in_category_spec(
                    category_qid,
                    depth as int,
                ).contains(v),
            r@.len() <= u32::MAX,
            forall|i: int| 0 <= i < r@.len() ==> (r@[i] as int) < self.wikigraph.num_arts(),
    {
        let mask = self.wikigraph.get_articles_in_category_as_dense(category_qid, depth);
        let r = bitmap_to_vec(&mask);
        proof {
            let dense_set = self.wikigraph.articles_in_category_spec(category_qid, depth as int);
            assert forall|i: int| 0 <= i < r@.len() implies (r@[i] as int)
                < self.wikigraph.num_arts() by {
                assert(r@.contains(r@[i]));
                let a = r@[i];
                if self.wikigraph.cat_original_to_dense@.contains_key(category_qid) {
                    let start = self.wikigraph.cat_original_to_dense@[category_qid];
                    let c = choose|c: u32|
                        reach(self.wikigraph.children@, start, depth as int).contains(c) && c
                            < self.wikigraph.cat_articles@.len() && bitmap_elems(
                            #[trigger] self.wikigraph.cat_articles@[c as int],
                        ).contains(a);
                }
            }
            if r@.len() > u32::MAX {
                lemma_strict_sorted_ge_index(r@);
                assert(r@[u32::MAX as int] >= u32::MAX as int);
                assert((r@[u32::MAX as int] as int) < self.wikigraph.num_arts());
            }
        }
        r
    }

    /// Per-day total views of the articles under a category (to `depth`),
    /// one `(date, total)` pair per day of `[start_date, end_date]`.
    /// An unknown category, a category with no articles, or an empty window
    /// yields the empty vector.
    pub fn get_category_trend(
        &self,
        category_qid: u32,
        depth: u8,
        start_date: Date,
        end_date: Date,
    ) -> (r: Vec<(Date, u64)>)
        requires
            self.wf(),
            start_date.wf(),
            end_date.wf(),
        ensures
            ({
                let arts = self.wikigraph.articles_in_category_spec(category_qid, depth as int);
                if arts.is_empty() || !start_date.le_spec(end_date) {
                    r@.len() == 0
                } else {
                    &&& r@.len() == end_date.day_number_spec() - start_date.day_number_spec() + 1
                    &&& forall|i: int|
                        0 <= i < r@.len() ==> {
                            &&& (#[trigger] r@[i]).0.wf()
                            &&& r@[i].0.day_number_spec() == start_date.day_number_spec() + i
                            &&& r@[i].1 == self.day_total_spec(r@[i].0, arts)
                        }
                }
            }),
    {
        let ghost arts = self.wikigraph.articles_in_category_spec(category_qid, depth as int);
        let arts_vec = self.category_articles_sorted(category_qid, depth);
        if arts_vec.is_empty() {
            proof {
                if !arts.is_empty() {
                    let v = arts.choose();
                    assert(arts.contains(v));
                    assert(arts_vec@.contains(v));
                }
            }
            return Vec::new();
        }
        proof {
            let v0 = arts_vec@[0];
            assert(arts_vec@.contains(v0));
            assert(arts.contains(v0));
            assert(!arts.is_empty());
        }
        self.trend_window(&arts_vec, Ghost(arts), start_date, end_date)
    }

    /// Per-day views of one article over `[start_date, end_date]`.
    /// An unknown article or an empty window yields the empty vector.
    pub fn get_article_trend(&self, article_qid: u32, start_date: Date, end_date: Date) -> (r: Vec<
        (Date, u64),
    >)
        requires
            self.wf(),
            start_date.wf(),
            end_date.wf(),
        ensures
            !self.wikigraph.art_original_to_dense@.contains_key(article_qid) ==> r@.len() == 0,
            self.wikigraph.art_original_to_dense@.contains_key(article_qid) ==> {
                let arts = set![self.wikigraph.art_original_to_dense@[article_qid]];
                if !start_date.le_spec(end_date) {
                    r@.len() == 0
                } else {
                    &&& r@.len() == end_date.day_number_spec() - start_date.day_number_spec() + 1
                    &&& forall|i: int|
                        0 <= i < r@.len() ==> {
                            &&& (#[trigger] r@[i]).0.wf()
                            &&& r@[i].0.day_number_spec() == start_date.day_number_spec() + i
                            &&& r@[i].1 == self.day_total_spec(r@[i].0, arts)
                        }
                }
            },
    {
        let article_dense_id = match self.wikigraph.art_original_to_dense.get(article_qid) {
            Some(dense_id) => dense_id,
            None => {
                return Vec::new();
            },
        };
        let mut arts_vec: Vec<u32> = Vec::new();
        arts_vec.push(article_dense_id);
        let ghost arts = set![article_dense_id];
        proof {
            assert(arts_vec@[0] == article_dense_id);
            assert forall|v: u32| arts_vec@.contains(v) <==> arts.contains(v) by {
                if arts_vec@.contains(v) {
                    let i = choose|i: int| 0 <= i < arts_vec@.len() && arts_vec@[i] == v;
                    assert(v == article_dense_id);
                }
            }
        }
        self.trend_window(&arts_vec, Ghost(arts), start_date, end_date)
    }
}

/// In a strictly ascending sequence of naturals, the entry at position `i`
/// is at least `i`.
proof fn lemma_strict_sorted_ge_index(s: Seq<u32>)
    requires
        forall|i: int, j: int| 0 <= i < j < s.len() ==> s[i] < s[j],
    ensures
        forall|i: int| 0 <= i < s.len() ==> s[i] >= i,
    decreases s.len(),
{
    if s.len() > 0 {
        lemma_strict_sorted_ge_index(s.drop_last());
        assert forall|i: int| 0 <= i < s.len() implies s[i] >= i by {
            if i < s.len() - 1 {
                assert(s.drop_last()[i] >= i);
            } else if s.len() >= 2 {
                assert(s.drop_last()[s.len() - 2] >= s.len() - 2);
                assert(s[s.len() - 2] < s[s.len() - 1]);
            }
        }
    }
}

impl TopCategoriesCache {
    /// Each key appears at most once.
    pub open spec fn wf(&self) -> bool {
        forall|i: int, j: int|
            0 <= i < j < self.entries@.len() ==> (#[trigger] self.entries@[i]).0 != (
            #[trigger] self.entries@[j]).0
    }
}

} // verus!

verus! {

/// One article's views summed over the closed window `[start, end]`.
#[verifier::opaque]
pub open spec fn window_total_spec(views: Map<u32, Vec<u32>>, a: u32, start: Date, end: Date) -> int
    decreases end.day_number_spec() - start.day_number_spec()
        when start.wf() && end.wf()
        via window_total_decreases
{
    if !start.le_spec(end) {
        0
    } else if start == end {
        day_view_spec(views, start, a)
    } else {
        day_view_spec(views, start, a) + window_total_spec(views, a, start.succ_spec(), end)
    }
}

#[via_fn]
proof fn window_total_decreases(views: Map<u32, Vec<u32>>, a: u32, start: Date, end: Date) {
    if start.le_spec(end) && start != end {
        start.lemma_succ_le(end);
        start.lemma_le_day_number(end);
    }
}

/// Extending a window by one day adds that day's views.
proof fn lemma_window_total_extend(views: Map<u32, Vec<u32>>, a: u32, start: Date, d: Date)
    requires
        start.wf(),
        d.wf(),
        start.le_spec(d),
        d != Date::max_spec(),
    ensures
        d.succ_spec().wf(),
        window_total_spec(views, a, start, d.succ_spec()) == window_total_spec(views, a, start, d)
            + day_view_spec(views, d.succ_spec(), a),
    decreases d.day_number_spec() - start.day_number_spec(),
{
    reveal(window_total_spec);
    d.lemma_day_number_succ();
    start.lemma_le_day_number(d);
    d.lemma_le_day_number(d.succ_spec());
    start.lemma_le_day_number(d.succ_spec());
    if start == d {
        assert(start.lt_spec(d.succ_spec()));
        assert(window_total_spec(views, a, d.succ_spec(), d.succ_spec()) == day_view_spec(
            views,
            d.succ_spec(),
            a,
        ));
        assert(window_total_spec(views, a, start, d.succ_spec()) == day_view_spec(views, start, a)
            + window_total_spec(views, a, start.succ_spec(), d.succ_spec()));
    } else {
        start.lemma_succ_le(d);
        lemma_window_total_extend(views, a, start.succ_spec(), d);
        assert(window_total_spec(views, a, start, d.succ_spec()) == day_view_spec(views, start, a)
            + window_total_spec(views, a, start.succ_spec(), d.succ_spec()));
        assert(window_total_spec(views, a, start, d) == day_view_spec(views, start, a)
            + window_total_spec(views, a, start.succ_spec(), d));
    }
}

/// A window total is between zero and one saturated day per window day.
proof fn lemma_window_total_bound(views: Map<u32, Vec<u32>>, a: u32, start: Date, end: Date)
    requires
        start.wf(),
        end.wf(),
    ensures
        0 <= window_total_spec(views, a, start, end),
        start.le_spec(end) ==> window_total_spec(views, a, start, end) <= (end.day_number_spec()
            - start.day_number_spec() + 1) * 0xFFFF_FFFF,
        !start.le_spec(end) ==> window_total_spec(views, a, start, end) == 0,
    decreases end.day_number_spec() - start.day_number_spec(),
{
    reveal(window_total_spec);
    if start.le_spec(end) && start != end {
        start.lemma_succ_le(end);
        start.lemma_le_day_number(end);
        lemma_window_total_bound(views, a, start.succ_spec(), end);
    }
}

/// How a sequence extended in the middle reads at each index.
proof fn lemma_seq_insert_facts<A>(s: Seq<A>, i: int, x: A)
    requires
        0 <= i <= s.len(),
    ensures
        s.insert(i, x).len() == s.len() + 1,
        forall|k: int| 0 <= k < i ==> #[trigger] s.insert(i, x)[k] == s[k],
        s.insert(i, x)[i] == x,
        forall|k: int| i < k <= s.len() ==> #[trigger] s.insert(i, x)[k] == s[k - 1],
{
    assert(s.insert(i, x) =~= s.take(i).push(x) + s.skip(i));
}

/// Whether `a` may stand before `b` in a ranking: views descending, dense id
/// ascending among equals.
pub open spec fn rank_precedes(a: (u32, u64), b: (u32, u64)) -> bool {
    a.1 > b.1 || (a.1 == b.1 && a.0 <= b.0)
}

/// Sorts `(dense id, total)` pairs by total descending, breaking ties by
/// ascending dense id.  The output holds the same pairs; distinct ids stay
/// distinct.
pub(crate) fn sort_pairs_desc(v: &Vec<(u32, u64)>) -> (r: Vec<(u32, u64)>)
    ensures
        r@.len() == v@.len(),
        forall|w: (u32, u64)| r@.contains(w) <==> v@.contains(w),
        forall|i: int, j: int| 0 <= i < j < r@.len() ==> rank_precedes(r@[i], r@[j]),
        (forall|i: int, j: int| 0 <= i < j < v@.len() ==> (v@[i].0) != (v@[j].0)) ==> (forall|
            i: int,
            j: int,
        | 0 <= i < j < r@.len() ==> (r@[i].0) != (r@[j].0)),
{
    let ghost distinct_in = forall|i: int, j: int|
        0 <= i < j < v@.len() ==> (v@[i].0) != (v@[j].0);
    let mut out: Vec<(u32, u64)> = Vec::new();
    let mut i: usize = 0;
    while i < v.len()
        invariant
            i <= v@.len(),
            out@.len() == i,
            distinct_in == (forall|i: int, j: int|
                0 <= i < j < v@.len() ==> (v@[i].0) != (v@[j].0)),
            forall|w: (u32, u64)| out@.contains(w) <==> v@.take(i as int).contains(w),
            forall|a: int, b: int| 0 <= a < b < out@.len() ==> rank_precedes(out@[a], out@[b]),
            distinct_in ==> (forall|a: int, b: int|
                0 <= a < b < out@.len() ==> (out@[a].0) != (out@[b].0)),
            distinct_in ==> (forall|a: int|
                0 <= a < out@.len() ==> exists|k: int|
                    0 <= k < i && v@[k] == #[trigger] out@[a]),
        decreases v@.len() - i,
    {
        let x = v[i];
        let mut pos: usize = 0;
        while pos < out.len() && (out[pos].1 > x.1 || (out[pos].1 == x.1 && out[pos].0 <= x.0))
            invariant
                pos <= out@.len(),
                forall|k: int| 0 <= k < pos ==> rank_precedes(#[trigger] out@[k], x),
            decreases out@.len() - pos,
        {
            pos = pos + 1;
        }
        let ghost old_out = out@;
        out.insert(pos, x);
        proof {
            lemma_seq_insert_facts(old_out, pos as int, x);
            assert(v@.take(i as int + 1).drop_last() =~= v@.take(i as int));
            assert(v@.take(i as int + 1).last() == v@[i as int]);
            assert forall|w: (u32, u64)| out@.contains(w) implies v@.take(i as int + 1).contains(
                w,
            ) by {
                let k = choose|k: int| 0 <= k < out@.len() && out@[k] == w;
                if k < pos {
                    assert(old_out[k] == w);
                    assert(old_out.contains(w));
                } else if k > pos {
                    assert(old_out[k - 1] == w);
                    assert(old_out.contains(w));
                }
                if w == x {
                    assert(v@.take(i as int + 1)[i as int] == w);
                } else {
                    assert(old_out.contains(w));
                    assert(v@.take(i as int).contains(w));
                    let m = choose|m: int|
                        0 <= m < v@.take(i as int).len() && v@.take(i as int)[m] == w;
                    assert(v@.take(i as int + 1)[m] == w);
                }
            }
            assert forall|w: (u32, u64)| v@.take(i as int + 1).contains(w) implies out@.contains(
                w,
            ) by {
                if w == x {
                    assert(out@[pos as int] == w);
                } else {
                    let m = choose|m: int|
                        0 <= m < v@.take(i as int + 1).len() && #[trigger] v@.take(
                            i as int + 1,
                        )[m] == w;
                    assert(v@.take(i as int)[m] == w);
                    assert(old_out.contains(w));
                    let k = choose|k: int| 0 <= k < old_out.len() && old_out[k] == w;
                    if k < pos {
                        assert(out@[k] == w);
                    } else {
                        assert(out@[k + 1] == w);
                    }
                }
            }
            assert forall|a: int, b: int|
                0 <= a < b < out@.len() implies rank_precedes(out@[a], out@[b]) by {
                if b < pos {
                } else if a == pos && b > pos {
                    assert(out@[b] == old_out[b - 1]);
                    assert(pos < old_out.len());
                    assert(rank_precedes(x, old_out[pos as int]));
                    if b - 1 > pos {
                        assert(rank_precedes(old_out[pos as int], old_out[b - 1]));
                    }
                } else if a < pos && b == pos {
                    assert(rank_precedes(old_out[a], x));
                } else if a < pos && b > pos {
                    assert(out@[a] == old_out[a] && out@[b] == old_out[b - 1]);
                } else if a > pos {
                    assert(out@[a] == old_out[a - 1] && out@[b] == old_out[b - 1]);
                }
            }
            if distinct_in {
                assert forall|a: int, b: int|
                    0 <= a < b < out@.len() implies (out@[a].0) != (out@[b].0) by {
                    if a == pos || b == pos {
                        let other = if a == pos {
                            b
                        } else {
                            a
                        };
                        let w = out@[other];
                        let k0 = if other < pos {
                            other
                        } else {
                            other - 1
                        };
                        assert(old_out[k0] == w);
                        assert(old_out.contains(w));
                        let k = choose|k: int| 0 <= k < i && v@[k] == w;
                        assert(v@[i as int].0 != w.0);
                    } else {
                        let a0 = if a < pos {
                            a
                        } else {
                            a - 1
                        };
                        let b0 = if b < pos {
                            b
                        } else {
                            b - 1
                        };
                        assert(out@[a] == old_out[a0] && out@[b] == old_out[b0]);
                    }
                }
                assert forall|a: int| 0 <= a < out@.len() implies exists|k: int|
                    0 <= k < i + 1 && v@[k] == #[trigger] out@[a] by {
                    if a == pos {
                        assert(v@[i as int] == out@[a]);
                    } else {
                        let a0 = if a < pos {
                            a
                        } else {
                            a - 1
                        };
                        assert(old_out[a0] == out@[a]);
                        let k = choose|k: int| 0 <= k < i && v@[k] == old_out[a0];
                        assert(v@[k] == out@[a]);
                    }
                }
            }
        }
        i = i + 1;
    }
    proof {
        assert(v@.take(v@.len() as int) =~= v@);
    }
    out
}

} // verus!

verus! {

/// Seconds elapsed from `from` to `now` (zero if the clock ran backwards).
pub open spec fn elapsed_spec(from: u64, now: u64) -> int {
    if now >= from {
        now - from
    } else {
        0
    }
}

/// An integer clipped to the `u64` range, the meaning of saturating
/// accumulation.
pub open spec fn capped(x: int) -> int {
    if x > u64::MAX {
        u64::MAX as int
    } else {
        x
    }
}

/// Sum of the totals of a ranked article list.
pub open spec fn rank_total_sum(s: Seq<ArticleRank>) -> int
    decreases s.len(),
{
    if s.len() == 0 {
        0
    } else {
        rank_total_sum(s.drop_last()) + s.last().total_views
    }
}

/// The cache TTL derived from data recency: windows ending close to today
/// expire quickly, historical ones live long.
pub open spec fn ttl_spec(end: Date, today: Date) -> int {
    let days_ago = today.day_number_spec() - end.day_number_spec();
    if days_ago <= 1 {
        900
    } else if days_ago <= 7 {
        3600
    } else if days_ago <= 30 {
        21600
    } else {
        86400
    }
}

impl TopCategoriesCacheEntry {
    /// The entry has outlived its TTL at time `now`.
    pub open spec fn expired_spec(&self, now: u64) -> bool {
        elapsed_spec(self.created_at, now) > self.ttl
    }

    pub fn is_expired(&self, now: u64) -> (r: bool)
        ensures
            r == self.expired_spec(now),
    {
        let elapsed = if now >= self.created_at {
            now - self.created_at
        } else {
            0
        };
        elapsed > self.ttl
    }
}

/// What a cache insert at time `now` leaves behind: the new entry present
/// with the derived TTL, other entries kept unless a due sweep dropped the
/// expired ones.
pub open spec fn cache_insert_post(
    old_c: TopCategoriesCache,
    new_c: TopCategoriesCache,
    key: TopCategoriesCacheKey,
    data_view: Seq<(u32, u64, Seq<ArticleRank>)>,
    now: u64,
    today: Date,
) -> bool {
    let swept = elapsed_spec(old_c.last_cleanup, now) > 600;
    &&& new_c.last_cleanup == if swept {
        now
    } else {
        old_c.last_cleanup
    }
    &&& exists|i: int|
        0 <= i < new_c.entries@.len() && (#[trigger] new_c.entries@[i]).0 == key
            && new_c.entries@[i].1.created_at == now && new_c.entries@[i].1.ttl == ttl_spec(
            key.end,
            today,
        ) && ranks_view(new_c.entries@[i].1.data@) == data_view
    &&& forall|i: int|
        0 <= i < new_c.entries@.len() && (#[trigger] new_c.entries@[i]).0 != key ==> exists|j: int|
            0 <= j < old_c.entries@.len() && old_c.entries@[j] == new_c.entries@[i]
    &&& forall|j: int|
        0 <= j < old_c.entries@.len() && (#[trigger] old_c.entries@[j]).0 != key && (!swept
            || !old_c.entries@[j].1.expired_spec(now)) ==> exists|i: int|
            0 <= i < new_c.entries@.len() && new_c.entries@[i] == old_c.entries@[j]
}

impl TopCategoriesCache {
    /// The cache holds an unexpired entry for `key` at time `now`.
    pub open spec fn has_fresh(&self, key: TopCategoriesCacheKey, now: u64) -> bool {
        exists|i: int|
            0 <= i < self.entries@.len() && (#[trigger] self.entries@[i]).0 == key
                && !self.entries@[i].1.expired_spec(now)
    }

    /// The ranking an unexpired entry for `key` holds.
    pub open spec fn fresh_data(&self, key: TopCategoriesCacheKey, now: u64) -> Seq<
        (u32, u64, Seq<ArticleRank>),
    > {
        let i = choose|i: int|
            0 <= i < self.entries@.len() && (#[trigger] self.entries@[i]).0 == key
                && !self.entries@[i].1.expired_spec(now);
        ranks_view(self.entries@[i].1.data@)
    }

    /// Looks `key` up; an expired entry counts as absent.
    pub fn get(&self, key: &TopCategoriesCacheKey, now: u64) -> (r: Option<Vec<CategoryRank>>)
        requires
            self.wf(),
        ensures
            match r {
                Some(d) => self.has_fresh(*key, now) && ranks_view(d@) == self.fresh_data(
                    *key,
                    now,
                ),
                None => !self.has_fresh(*key, now),
            },
    {
        let n = self.entries.len();
        let mut i: usize = 0;
        while i < n
            invariant
                self.wf(),
                n == self.entries@.len(),
                i <= n,
                forall|j: int| 0 <= j < i ==> (#[trigger] self.entries@[j]).0 != *key,
            decreases n - i,
        {
            if self.entries[i].0 == *key {
                if self.entries[i].1.is_expired(now) {
                    proof {
                        assert forall|j: int|
                            0 <= j < self.entries@.len() implies !((#[trigger] self.entries@[j]).0
                            == *key && !self.entries@[j].1.expired_spec(now)) by {
                            if j != i {
                                assert(self.entries@[j].0 != self.entries@[i as int].0 || j < i);
                            }
                        }
                    }
                    return None;
                }
                let d = clone_ranks(&self.entries[i].1.data);
                proof {
                    assert(self.has_fresh(*key, now)) by {
                        assert(!self.entries@[i as int].1.expired_spec(now));
                    }
                    let w = choose|w: int|
                        0 <= w < self.entries@.len() && (#[trigger] self.entries@[w]).0 == *key
                            && !self.entries@[w].1.expired_spec(now);
                    assert(w == i);
                }
                return Some(d);
            }
            i = i + 1;
        }
        None
    }

    /// Drops every expired entry.
    pub fn cleanup_expired(&mut self, now: u64)
        requires
            old(self).wf(),
        ensures
            final(self).wf(),
            final(self).last_cleanup == old(self).last_cleanup,
            forall|e: (TopCategoriesCacheKey, TopCategoriesCacheEntry)|
                final(self).entries@.contains(e) <==> (old(self).entries@.contains(e)
                    && !e.1.expired_spec(now)),
    {
        let mut kept: Vec<(TopCategoriesCacheKey, TopCategoriesCacheEntry)> = Vec::new();
        let ghost orig = self.entries@;
        let ghost mut src: Seq<int> = Seq::empty();
        loop
            invariant
                forall|i: int, j: int|
                    0 <= i < j < orig.len() ==> (#[trigger] orig[i]).0 != (#[trigger] orig[j]).0,
                self.entries@ == orig.take(self.entries@.len() as int),
                self.entries@.len() <= orig.len(),
                src.len() == kept@.len(),
                forall|k: int|
                    0 <= k < kept@.len() ==> self.entries@.len() <= #[trigger] src[k] < orig.len()
                        && orig[src[k]] == kept@[k] && !kept@[k].1.expired_spec(now),
                forall|k1: int, k2: int| 0 <= k1 < k2 < src.len() ==> src[k1] < src[k2],
                self.last_cleanup == old(self).last_cleanup,
                forall|j: int|
                    self.entries@.len() <= j < orig.len() && !(#[trigger] orig[j]).1.expired_spec(
                        now,
                    ) ==> kept@.contains(orig[j]),
            ensures
                self.entries@.len() == 0,
                src.len() == kept@.len(),
                forall|k: int|
                    0 <= k < kept@.len() ==> 0 <= #[trigger] src[k] < orig.len() && orig[src[k]]
                        == kept@[k] && !kept@[k].1.expired_spec(now),
                forall|k1: int, k2: int| 0 <= k1 < k2 < src.len() ==> src[k1] < src[k2],
                self.last_cleanup == old(self).last_cleanup,
                forall|j: int|
                    0 <= j < orig.len() && !(#[trigger] orig[j]).1.expired_spec(now)
                        ==> kept@.contains(orig[j]),
            decreases self.entries@.len(),
        {
            if self.entries.len() == 0 {
                break ;
            }
            let ghost prev = self.entries@;
            let ghost prev_kept = kept@;
            let e_opt = self.entries.pop();
            let e = match e_opt {
                Some(e) => e,
                None => {
                    proof {
                        assert(false);
                    }
                    unreached()
                },
            };
            proof {
                assert(self.entries@ =~= orig.take(self.entries@.len() as int));
                assert(e == orig[self.entries@.len() as int]);
            }
            if !e.1.is_expired(now) {
                proof {
                    src = src.insert(0, self.entries@.len() as int);
                }
                kept.insert(0, e);
                proof {
                    lemma_seq_insert_facts(prev_kept, 0, e);
                    assert forall|j: int|
                        self.entries@.len() <= j < orig.len() && !(
                        #[trigger] orig[j]).1.expired_spec(now) implies kept@.contains(orig[j]) by {
                        if j == self.entries@.len() {
                            assert(kept@[0] == orig[j]);
                        } else {
                            assert(prev_kept.contains(orig[j]));
                            let k = choose|k: int| 0 <= k < prev_kept.len() && prev_kept[k]
                                == orig[j];
                            assert(kept@[k + 1] == orig[j]);
                        }
                    }
                }
            }
        }
        proof {
            assert forall|e: (TopCategoriesCacheKey, TopCategoriesCacheEntry)|
                kept@.contains(e) implies (orig.contains(e) && !e.1.expired_spec(now)) by {
                let k = choose|k: int| 0 <= k < kept@.len() && kept@[k] == e;
                assert(orig[src[k]] == e);
            }
            assert forall|k1: int, k2: int|
                0 <= k1 < k2 < kept@.len() implies (#[trigger] kept@[k1]).0 != (
            #[trigger] kept@[k2]).0 by {
                assert(orig[src[k1]] == kept@[k1] && orig[src[k2]] == kept@[k2]);
                assert(src[k1] < src[k2]);
            }
        }
        self.entries = kept;
    }

    pub fn clear(&mut self)
        ensures
            final(self).wf(),
            final(self).entries@.len() == 0,
            final(self).last_cleanup == old(self).last_cleanup,
    {
        self.entries = Vec::new();
    }
}

} // verus!

verus! {

/// How a sequence with one element removed reads at each index.
proof fn lemma_seq_remove_facts<A>(s: Seq<A>, i: int)
    requires
        0 <= i < s.len(),
    ensures
        s.remove(i).len() == s.len() - 1,
        forall|k: int| 0 <= k < i ==> #[trigger] s.remove(i)[k] == s[k],
        forall|k: int| i <= k < s.len() - 1 ==> #[trigger] s.remove(i)[k] == s[k + 1],
{
    assert(s.remove(i) =~= s.take(i) + s.skip(i + 1));
}

impl TopCategoriesCache {
    /// The TTL for a window ending at `end_date`, measured from `today`.
    /// Recent data changes frequently and is cached briefly; historical data
    /// for a full day.
    pub fn get_ttl(start_date: Date, end_date: Date, today: Date) -> (r: u64)
        requires
            end_date.wf(),
            today.wf(),
        ensures
            r == ttl_spec(end_date, today),
    {
        let days_ago: i64 = today.day_number() as i64 - end_date.day_number() as i64;
        if days_ago <= 1 {
            900
        } else if days_ago <= 7 {
            3600
        } else if days_ago <= 30 {
            21600
        } else {
            86400
        }
    }

    /// Stores a ranking under `key`, replacing any previous entry, and
    /// sweeps expired entries when at least ten minutes have passed since
    /// the last sweep.
    pub fn insert(&mut self, key: TopCategoriesCacheKey, data: Vec<CategoryRank>, now: u64, today: Date)
        requires
            old(self).wf(),
            key.end.wf(),
            today.wf(),
        ensures
            final(self).wf(),
            cache_insert_post(*old(self), *final(self), key, ranks_view(data@), now, today),
    {
        let ttl = Self::get_ttl(key.start, key.end, today);
        let ghost orig = self.entries@;
        // Drop any previous entry under this key.
        let n = self.entries.len();
        let mut idx: usize = 0;
        while idx < n && !(self.entries[idx].0 == key)
            invariant
                orig == self.entries@,
                n == self.entries@.len(),
                idx <= n,
                forall|j: int| 0 <= j < idx ==> (#[trigger] self.entries@[j]).0 != key,
            decreases n - idx,
        {
            idx = idx + 1;
        }
        if idx < n {
            proof {
                lemma_seq_remove_facts(orig, idx as int);
            }
            self.entries.remove(idx);
        }
        proof {
            assert forall|j: int|
                0 <= j < self.entries@.len() implies (#[trigger] self.entries@[j]).0 != key by {
                if idx < n && j >= idx {
                    assert(self.entries@[j] == orig[j + 1]);
                }
            }
            assert forall|j: int| 0 <= j < self.entries@.len() implies exists|m: int|
                0 <= m < orig.len() && orig[m] == #[trigger] self.entries@[j] by {
                if idx < n && j >= idx {
                    assert(orig[j + 1] == self.entries@[j]);
                } else {
                    assert(orig[j] == self.entries@[j]);
                }
            }
            assert forall|m: int|
                0 <= m < orig.len() && (#[trigger] orig[m]).0 != key implies
                self.entries@.contains(orig[m]) by {
                if idx < n {
                    assert(m != idx);
                    if m < idx {
                        assert(self.entries@[m] == orig[m]);
                    } else {
                        assert(self.entries@[m - 1] == orig[m]);
                    }
                } else {
                    assert(self.entries@[m] == orig[m]);
                }
            }
            assert forall|j1: int, j2: int|
                0 <= j1 < j2 < self.entries@.len() implies (#[trigger] self.entries@[j1]).0 != (
            #[trigger] self.entries@[j2]).0 by {
                let m1 = if idx < n && j1 >= idx {
                    j1 + 1
                } else {
                    j1
                };
                let m2 = if idx < n && j2 >= idx {
                    j2 + 1
                } else {
                    j2
                };
                assert(self.entries@[j1] == orig[m1] && self.entries@[j2] == orig[m2]);
            }
        }
        let ghost removed = self.entries@;
        self.entries.push((key, TopCategoriesCacheEntry { data, created_at: now, ttl }));
        let ghost pushed = self.entries@;
        let sweep_due = (if now >= self.last_cleanup {
            now - self.last_cleanup
        } else {
            0
        }) > 600;
        proof {
            assert(pushed[pushed.len() - 1].0 == key);
            assert(forall|j: int| 0 <= j < removed.len() ==> pushed[j] == removed[j]);
        }
        if sweep_due {
            let ghost pre_sweep = self.entries@;
            self.cleanup_expired(now);
            self.last_cleanup = now;
            proof {
                let new_entry = pre_sweep[pre_sweep.len() - 1];
                assert(!new_entry.1.expired_spec(now));
                assert(pre_sweep.contains(new_entry));
                assert(self.entries@.contains(new_entry));
                let i = choose|i: int|
                    0 <= i < self.entries@.len() && self.entries@[i] == new_entry;
                assert(self.entries@[i].0 == key && self.entries@[i].1.created_at == now
                    && self.entries@[i].1.ttl == ttl_spec(key.end, today) && ranks_view(
                    self.entries@[i].1.data@,
                ) == ranks_view(data@));
                assert forall|i: int|
                    0 <= i < self.entries@.len() && (#[trigger] self.entries@[i]).0
                        != key implies exists|j: int|
                    0 <= j < orig.len() && orig[j] == self.entries@[i] by {
                    assert(pre_sweep.contains(self.entries@[i]));
                    let m = choose|m: int|
                        0 <= m < pre_sweep.len() && pre_sweep[m] == self.entries@[i];
                    assert(m < pre_sweep.len() - 1);
                    assert(removed[m] == self.entries@[i]);
                    assert(removed.contains(self.entries@[i]));
                    let j0 = choose|j0: int|
                        0 <= j0 < removed.len() && removed[j0] == self.entries@[i];
                    assert(exists|m2: int|
                        0 <= m2 < orig.len() && orig[m2] == #[trigger] removed[j0]);
                }
                assert forall|j: int|
                    0 <= j < orig.len() && (#[trigger] orig[j]).0 != key && !orig[j].1.expired_spec(
                        now,
                    ) implies exists|i: int|
                    0 <= i < self.entries@.len() && self.entries@[i] == orig[j] by {
                    assert(removed.contains(orig[j]));
                    let m = choose|m: int| 0 <= m < removed.len() && removed[m] == orig[j];
                    assert(pre_sweep[m] == orig[j]);
                    assert(pre_sweep.contains(orig[j]));
                    assert(self.entries@.contains(orig[j]));
                    let i = choose|i: int|
                        0 <= i < self.entries@.len() && self.entries@[i] == orig[j];
                }
            }
        } else {
            proof {
                assert(self.entries@[self.entries@.len() - 1].0 == key);
                assert forall|i: int|
                    0 <= i < self.entries@.len() && (#[trigger] self.entries@[i]).0
                        != key implies exists|j: int|
                    0 <= j < orig.len() && orig[j] == self.entries@[i] by {
                    assert(i < removed.len());
                    assert(removed[i] == self.entries@[i]);
                    assert(removed.contains(self.entries@[i]));
                    let j0 = choose|j0: int|
                        0 <= j0 < removed.len() && removed[j0] == self.entries@[i];
                    assert(exists|m2: int|
                        0 <= m2 < orig.len() && orig[m2] == #[trigger] removed[j0]);
                }
                assert forall|j: int|
                    0 <= j < orig.len() && (#[trigger] orig[j]).0 != key implies exists|i: int|
                    0 <= i < self.entries@.len() && self.entries@[i] == orig[j] by {
                    assert(removed.contains(orig[j]));
                    let m = choose|m: int| 0 <= m < removed.len() && removed[m] == orig[j];
                    assert(self.entries@[m] == orig[j]);
                }
            }
        }
    }
}

impl PageViewEngine {
    /// Clears the top-categories cache.
    pub fn clear_top_categories_cache(&mut self)
        requires
            old(self).wf(),
        ensures
            final(self).wf(),
            final(self).top_categories_cache.entries@.len() == 0,
            final(self).wikigraph == old(self).wikigraph,
            final(self).daily_views == old(self).daily_views,
    {
        self.top_categories_cache.clear();
    }

    /// One article's total views over the closed window `[start, end]`.
    pub(crate) fn article_window_total(&self, a: u32, start_date: Date, end_date: Date) -> (total: u64)
        requires
            self.wf(),
            start_date.wf(),
            end_date.wf(),
        ensures
            total == window_total_spec(self.daily_views@, a, start_date, end_date),
    {
        if !start_date.le(&end_date) {
            proof {
                reveal(window_total_spec);
            }
            return 0;
        }
        proof {
            start_date.lemma_le_day_number(end_date);
            start_date.lemma_day_number_bound();
            end_date.lemma_day_number_bound();
        }
        let n_days: u32 = end_date.day_number() - start_date.day_number();
        let mut total: u64 = 0;
        let mut k: u32 = 0;
        let mut curr = start_date;
        let ghost mut done_until: Date = start_date;
        while k <= n_days
            invariant
                self.wf(),
                start_date.wf(),
                end_date.wf(),
                start_date.le_spec(end_date),
                n_days == end_date.day_number_spec() - start_date.day_number_spec(),
                n_days < 3652060,
                k <= n_days + 1,
                k <= n_days ==> curr.wf() && curr.day_number_spec() == start_date.day_number_spec()
                    + k && curr.le_spec(end_date),
                k == 0 ==> curr == start_date && total == 0,
                k > 0 ==> {
                    &&& done_until.wf()
                    &&& done_until.day_number_spec() == start_date.day_number_spec() + k - 1
                    &&& done_until.le_spec(end_date)
                    &&& total == window_total_spec(self.daily_views@, a, start_date, done_until)
                    &&& (k <= n_days ==> curr == done_until.succ_spec())
                },
            decreases n_days + 1 - k,
        {
            let key = date_key(curr);
            let dv: u64 = match self.daily_views.get(&key) {
                Some(day_vec) => {
                    if (a as usize) < day_vec.len() {
                        day_vec[a as usize] as u64
                    } else {
                        0
                    }
                },
                None => 0,
            };
            proof {
                assert(dv == day_view_spec(self.daily_views@, curr, a));
                if k == 0 {
                    assert(window_total_spec(self.daily_views@, a, start_date, start_date)
                        == day_view_spec(self.daily_views@, start_date, a)) by {
                        reveal(window_total_spec);
                    }
                } else {
                    start_date.lemma_le_day_number(done_until);
                    done_until.lemma_le_day_number(end_date);
                    lemma_window_total_bound(self.daily_views@, a, start_date, done_until);
                    lemma_window_total_extend(self.daily_views@, a, start_date, done_until);
                }
            }
            total = total + dv;
            proof {
                done_until = curr;
            }
            if k < n_days {
                proof {
                    curr.lemma_le_day_number(end_date);
                    curr.lemma_succ_le(end_date);
                }
                curr = curr.succ();
            }
            k = k + 1;
        }
        proof {
            start_date.lemma_le_day_number(done_until);
            done_until.lemma_le_day_number(end_date);
            end_date.lemma_le_day_number(done_until);
            assert(done_until == end_date);
        }
        total
    }
}

} // verus!

verus! {
/// From the collected positive pairs and their sorted, truncated image, the
/// produced article list is a correct top-N ranking.
proof fn lemma_top_articles_witness(
    eng: &PageViewEngine,
    pool: Set<u32>,
    arts_vec: Seq<u32>,
    pairs: Seq<(u32, u64)>,
    sorted: Seq<(u32, u64)>,
    out: Seq<ArticleRank>,
    start_date: Date,
    end_date: Date,
    top_n: int,
)
    requires
        forall|v: u32| arts_vec.contains(v) <==> pool.contains(v),
        forall|k: int|
            0 <= k < pairs.len() ==> {
                &&& pool.contains((#[trigger] pairs[k]).0)
                &&& (pairs[k].0 as int) < eng.wikigraph.num_arts()
                &&& pairs[k].1 == window_total_spec(
                    eng.daily_views@,
                    pairs[k].0,
                    start_date,
                    end_date,
                )
                &&& pairs[k].1 > 0
            },
        forall|j: int|
            0 <= j < arts_vec.len() && window_total_spec(
                eng.daily_views@,
                #[trigger] arts_vec[j],
                start_date,
                end_date,
            ) > 0 ==> pairs.contains(
                (
                    arts_vec[j],
                    window_total_spec(eng.daily_views@, arts_vec[j], start_date, end_date) as u64,
                ),
            ),
        sorted.len() == pairs.len(),
        forall|w: (u32, u64)| sorted.contains(w) <==> pairs.contains(w),
        forall|i: int, j: int| 0 <= i < j < sorted.len() ==> rank_precedes(sorted[i], sorted[j]),
        forall|i: int, j: int| 0 <= i < j < sorted.len() ==> (sorted[i].0) != (sorted[j].0),
        top_n >= 0,
        out.len() == (if top_n < sorted.len() {
            top_n
        } else {
            sorted.len() as int
        }),
        forall|m: int|
            0 <= m < out.len() ==> (#[trigger] out[m]).total_views == sorted[m].1
                && (sorted[m].0 as int) < eng.wikigraph.num_arts() && out[m].article_qid
                == eng.wikigraph.art_dense_to_original@[sorted[m].0 as int],
    ensures
        exists|ds: Seq<u32>|
            eng.top_articles_ok(ds, out, pool, start_date, end_date, top_n),
{
    let ds = Seq::new(out.len() as nat, |m: int| sorted[m].0);
    assert forall|m: int| 0 <= m < ds.len() implies {
        &&& (#[trigger] ds[m] as int) < eng.wikigraph.num_arts()
        &&& pool.contains(ds[m])
        &&& out[m].article_qid == eng.wikigraph.art_dense_to_original@[ds[m] as int]
        &&& out[m].total_views == window_total_spec(
            eng.daily_views@,
            ds[m],
            start_date,
            end_date,
        )
        &&& out[m].total_views > 0
    } by {
        assert(sorted.contains(sorted[m]));
        let p = choose|p: int| 0 <= p < pairs.len() && pairs[p] == sorted[m];
    }
    assert forall|k1: int, k2: int|
        0 <= k1 < k2 < out.len() implies (out[k1].total_views) >= (out[k2].total_views) by {
        assert(rank_precedes(sorted[k1], sorted[k2]));
    }
    if out.len() != top_n {
        assert(out.len() == sorted.len());
        assert forall|a: u32|
            pool.contains(a) && window_total_spec(eng.daily_views@, a, start_date, end_date)
                > 0 implies ds.contains(a) by {
            assert(arts_vec.contains(a));
            let j = choose|j: int| 0 <= j < arts_vec.len() && arts_vec[j] == a;
            let w = (a, window_total_spec(eng.daily_views@, a, start_date, end_date) as u64);
            assert(pairs.contains(w));
            assert(sorted.contains(w));
            let m = choose|m: int| 0 <= m < sorted.len() && sorted[m] == w;
            assert(ds[m] == a);
        }
    }
    assert forall|a: u32, k2: int|
        pool.contains(a) && #[trigger] window_total_spec(
            eng.daily_views@,
            a,
            start_date,
            end_date,
        ) > 0 && !ds.contains(a) && 0 <= k2 < out.len() implies window_total_spec(
        eng.daily_views@,
        a,
        start_date,
        end_date,
    ) <= (#[trigger] out[k2]).total_views by {
        assert(arts_vec.contains(a));
        let j = choose|j: int| 0 <= j < arts_vec.len() && arts_vec[j] == a;
        let w = (a, window_total_spec(eng.daily_views@, a, start_date, end_date) as u64);
        assert(pairs.contains(w));
        assert(sorted.contains(w));
        let m = choose|m: int| 0 <= m < sorted.len() && sorted[m] == w;
        if m < out.len() {
            assert(ds[m] == a);
            assert(false);
        }
        assert(rank_precedes(sorted[k2], sorted[m]));
        assert(sorted[m].1 == window_total_spec(eng.daily_views@, a, start_date, end_date)) by {
            assert(pairs.contains(sorted[m]));
            let p = choose|p: int| 0 <= p < pairs.len() && pairs[p] == sorted[m];
        }
    }
    assert(eng.top_articles_ok(ds, out, pool, start_date, end_date, top_n));
}

} // verus!

verus! {

/// The `(dense id, window total)` pairs of the articles with positive
/// window totals, in the order the article list gives them.
pub open spec fn positive_pairs_spec(
    views: Map<u32, Vec<u32>>,
    arts: Seq<u32>,
    start_date: Date,
    end_date: Date,
) -> Seq<(u32, u64)>
    decreases arts.len(),
{
    if arts.len() == 0 {
        Seq::empty()
    } else {
        let rest = positive_pairs_spec(views, arts.drop_last(), start_date, end_date);
        let a = arts.last();
        let t = window_total_spec(views, a, start_date, end_date);
        if t > 0 {
            rest.push((a, t as u64))
        } else {
            rest
        }
    }
}

/// What the positive-pair list of a strictly ascending article list holds.
proof fn lemma_positive_pairs_props(
    views: Map<u32, Vec<u32>>,
    arts: Seq<u32>,
    start_date: Date,
    end_date: Date,
)
    requires
        start_date.wf(),
        end_date.wf(),
        forall|i1: int, j1: int| 0 <= i1 < j1 < arts.len() ==> arts[i1] < arts[j1],
    ensures
        ({
            let pp = positive_pairs_spec(views, arts, start_date, end_date);
            &&& forall|k: int|
                0 <= k < pp.len() ==> {
                    &&& arts.contains((#[trigger] pp[k]).0)
                    &&& pp[k].1 == window_total_spec(views, pp[k].0, start_date, end_date)
                    &&& pp[k].1 > 0
                }
            &&& forall|k1: int, k2: int| 0 <= k1 < k2 < pp.len() ==> (pp[k1].0) < (pp[k2].0)
            &&& forall|j: int|
                0 <= j < arts.len() && window_total_spec(
                    views,
                    #[trigger] arts[j],
                    start_date,
                    end_date,
                ) > 0 ==> pp.contains(
                    (
                        arts[j],
                        window_total_spec(views, arts[j], start_date, end_date) as u64,
                    ),
                )
        }),
    decreases arts.len(),
{
    let pp = positive_pairs_spec(views, arts, start_date, end_date);
    if arts.len() > 0 {
        lemma_positive_pairs_props(views, arts.drop_last(), start_date, end_date);
        let rest = positive_pairs_spec(views, arts.drop_last(), start_date, end_date);
        let a = arts.last();
        let t = window_total_spec(views, a, start_date, end_date);
        lemma_window_total_bound(views, a, start_date, end_date);
        start_date.lemma_day_number_bound();
        end_date.lemma_day_number_bound();
        assert forall|k: int| 0 <= k < pp.len() implies {
            &&& arts.contains((#[trigger] pp[k]).0)
            &&& pp[k].1 == window_total_spec(views, pp[k].0, start_date, end_date)
            &&& pp[k].1 > 0
        } by {
            if k < rest.len() {
                assert(pp[k] == rest[k]);
                assert(arts.drop_last().contains(rest[k].0));
                let j = choose|j: int|
                    0 <= j < arts.drop_last().len() && arts.drop_last()[j] == rest[k].0;
                assert(arts[j] == rest[k].0);
            } else {
                assert(pp[k] == (a, t as u64));
                assert(arts[arts.len() - 1] == a);
                if start_date.le_spec(end_date) {
                    assert(end_date.day_number_spec() - start_date.day_number_spec() + 1
                        <= 3652060);
                    assert((end_date.day_number_spec() - start_date.day_number_spec() + 1)
                        * 0xFFFF_FFFF <= 3652060 * 0xFFFF_FFFF);
                }
                assert(0 <= t <= u64::MAX);
            }
        }
        assert forall|k1: int, k2: int|
            0 <= k1 < k2 < pp.len() implies (pp[k1].0) < (pp[k2].0) by {
            if k2 == pp.len() - 1 && t > 0 {
                assert(pp[k1] == rest[k1]);
                assert(arts.drop_last().contains(rest[k1].0));
                let j = choose|j: int|
                    0 <= j < arts.drop_last().len() && arts.drop_last()[j] == rest[k1].0;
                assert(arts[j] == rest[k1].0);
                assert(arts[j] < arts[arts.len() - 1]);
            }
        }
        assert forall|j: int|
            0 <= j < arts.len() && window_total_spec(
                views,
                #[trigger] arts[j],
                start_date,
                end_date,
            ) > 0 implies pp.contains(
            ((arts[j], window_total_spec(views, arts[j], start_date, end_date) as u64)),
        ) by {
            if j < arts.len() - 1 {
                assert(arts.drop_last()[j] == arts[j]);
                let w = (
                    arts[j],
                    window_total_spec(views, arts[j], start_date, end_date) as u64,
                );
                assert(rest.contains(w));
                let k = choose|k: int| 0 <= k < rest.len() && rest[k] == w;
                assert(pp[k] == w);
            } else {
                assert(t > 0);
                assert(pp[pp.len() - 1] == (a, t as u64));
            }
        }
    }
}

impl PageViewEngine {
    /// What a ranked article list must be: distinct articles of the pool
    /// with positive window totals (dense witness `ds`), views descending,
    /// at most `n` entries, complete unless cut at `n`, and no omitted
    /// positive article out-viewing a listed one.
    pub open spec fn top_articles_ok(
        &self,
        ds: Seq<u32>,
        arts: Seq<ArticleRank>,
        pool: Set<u32>,
        start_date: Date,
        end_date: Date,
        n: int,
    ) -> bool {
        &&& ds.len() == arts.len()
        &&& forall|k: int|
            0 <= k < ds.len() ==> {
                &&& (#[trigger] ds[k] as int) < self.wikigraph.num_arts()
                &&& pool.contains(ds[k])
                &&& arts[k].article_qid == self.wikigraph.art_dense_to_original@[ds[k] as int]
                &&& arts[k].total_views == window_total_spec(
                    self.daily_views@,
                    ds[k],
                    start_date,
                    end_date,
                )
                &&& arts[k].total_views > 0
            }
        &&& forall|k1: int, k2: int| 0 <= k1 < k2 < ds.len() ==> ds[k1] != ds[k2]
        &&& forall|k1: int, k2: int|
            0 <= k1 < k2 < arts.len() ==> (arts[k1].total_views) >= (arts[k2].total_views)
        &&& arts.len() <= n
        &&& (arts.len() == n || (forall|a: u32|
            pool.contains(a) && window_total_spec(self.daily_views@, a, start_date, end_date) > 0
                ==> ds.contains(a)))
        &&& forall|a: u32, k: int|
            pool.contains(a) && #[trigger] window_total_spec(
                self.daily_views@,
                a,
                start_date,
                end_date,
            ) > 0 && !ds.contains(a) && 0 <= k < arts.len() ==> window_total_spec(
                self.daily_views@,
                a,
                start_date,
                end_date,
            ) <= (#[trigger] arts[k]).total_views
    }

    /// The `(dense id, window total)` pairs of the articles of `arts_vec`
    /// whose window total is positive, in the given (ascending) order.
    fn collect_positive_pairs(
        &self,
        arts_vec: &Vec<u32>,
        start_date: Date,
        end_date: Date,
    ) -> (pairs: Vec<(u32, u64)>)
        requires
            self.wf(),
            start_date.wf(),
            end_date.wf(),
            forall|i1: int, j1: int|
                0 <= i1 < j1 < arts_vec@.len() ==> arts_vec@[i1] < arts_vec@[j1],
        ensures
            pairs@ == positive_pairs_spec(self.daily_views@, arts_vec@, start_date, end_date),
    {
        let mut pairs: Vec<(u32, u64)> = Vec::new();
        let n_arts = arts_vec.len();
        let mut i: usize = 0;
        while i < n_arts
            invariant
                self.wf(),
                start_date.wf(),
                end_date.wf(),
                n_arts == arts_vec@.len(),
                i <= n_arts,
                pairs@ == positive_pairs_spec(
                    self.daily_views@,
                    arts_vec@.take(i as int),
                    start_date,
                    end_date,
                ),
            decreases n_arts - i,
        {
            let a = arts_vec[i];
            let t = self.article_window_total(a, start_date, end_date);
            proof {
                assert(arts_vec@.take(i as int + 1).drop_last() =~= arts_vec@.take(i as int));
                assert(arts_vec@.take(i as int + 1).last() == arts_vec@[i as int]);
            }
            if t > 0 {
                pairs.push((a, t));
            }
            i = i + 1;
        }
        proof {
            assert(arts_vec@.take(n_arts as int) =~= arts_vec@);
        }
        pairs
    }

    /// The top `top_n` articles of a category (searched to `depth`) by total
    /// views over `[start_date, end_date]`, views descending; the rank's
    /// `total_views` is the saturating sum of the listed articles' totals.
    /// Ties are broken by ascending dense id.
    #[verifier::rlimit(60)]
    pub fn get_top_articles_in_category(
        &self,
        category_qid: u32,
        start_date: Date,
        end_date: Date,
        depth: u8,
        top_n: usize,
    ) -> (r: CategoryRank)
        requires
            self.wf(),
            start_date.wf(),
            end_date.wf(),
        ensures
            r.category_qid == category_qid,
            exists|ds: Seq<u32>|
                self.top_articles_ok(
                    ds,
                    r.top_articles@,
                    self.wikigraph.articles_in_category_spec(category_qid, depth as int),
                    start_date,
                    end_date,
                    top_n as int,
                ),
            r.total_views == capped(rank_total_sum(r.top_articles@)),
    {
        let ghost pool = self.wikigraph.articles_in_category_spec(category_qid, depth as int);
        let arts_vec = self.category_articles_sorted(category_qid, depth);
        let pairs = self.collect_positive_pairs(&arts_vec, start_date, end_date);
        proof {
            lemma_positive_pairs_props(self.daily_views@, arts_vec@, start_date, end_date);
            assert forall|k: int| 0 <= k < pairs@.len() implies {
                &&& pool.contains((#[trigger] pairs@[k]).0)
                &&& (pairs@[k].0 as int) < self.wikigraph.num_arts()
            } by {
                assert(arts_vec@.contains(pairs@[k].0));
                let j = choose|j: int| 0 <= j < arts_vec@.len() && arts_vec@[j] == pairs@[k].0;
            }
        }
        let sorted = sort_pairs_desc(&pairs);
        let limit = if top_n < sorted.len() {
            top_n
        } else {
            sorted.len()
        };
        let mut out: Vec<ArticleRank> = Vec::new();
        let mut total: u64 = 0;
        let mut k: usize = 0;
        while k < limit
            invariant
                self.wf(),
                limit <= sorted@.len(),
                k <= limit,
                out@.len() == k,
                forall|m: int|
                    0 <= m < k ==> (#[trigger] out@[m]).total_views == sorted@[m].1
                        && (sorted@[m].0 as int) < self.wikigraph.num_arts() && out@[m].article_qid
                        == self.wikigraph.art_dense_to_original@[sorted@[m].0 as int],
                forall|w: (u32, u64)| sorted@.contains(w) <==> pairs@.contains(w),
                forall|m: int|
                    0 <= m < sorted@.len() ==> pairs@.contains(#[trigger] sorted@[m]),
                forall|m: int|
                    0 <= m < pairs@.len() ==> {
                        &&& ((#[trigger] pairs@[m]).0 as int) < self.wikigraph.num_arts()
                        &&& pairs@[m].1 > 0
                    },
                total == capped(rank_total_sum(out@)),
            decreases limit - k,
        {
            proof {
                assert(sorted@.contains(sorted@[k as int]));
            }
            let pair = sorted[k];
            let ghost old_out = out@;
            out.push(ArticleRank {
                article_qid: self.wikigraph.art_dense_to_original[pair.0 as usize],
                total_views: pair.1,
            });
            total = total.saturating_add(pair.1);
            proof {
                assert(out@.drop_last() =~= old_out);
            }
            k = k + 1;
        }
        proof {
            assert(forall|k1: int, k2: int|
                0 <= k1 < k2 < sorted@.len() ==> (sorted@[k1].0) != (sorted@[k2].0));
            lemma_top_articles_witness(
                self,
                pool,
                arts_vec@,
                pairs@,
                sorted@,
                out@,
                start_date,
                end_date,
                top_n as int,
            );
        }
        let r = CategoryRank { category_qid, total_views: total, top_articles: out };
        proof {
            let ds = choose|ds: Seq<u32>|
                self.top_articles_ok(ds, r.top_articles@, pool, start_date, end_date, top_n as int);
            assert(self.top_articles_ok(
                ds,
                r.top_articles@,
                pool,
                start_date,
                end_date,
                top_n as int,
            ));
        }
        r
    }
}

} // verus!

verus! {

/// How often `c` occurs in one article's category list; repeated membership
/// rows contribute repeatedly, as the scatter phase does.
pub open spec fn occurrences(s: Seq<u32>, c: u32) -> int
    decreases s.len(),
{
    if s.len() == 0 {
        0
    } else {
        occurrences(s.drop_last(), c) + if s.last() == c {
            1int
        } else {
            0int
        }
    }
}

proof fn lemma_occurrences_nonneg(s: Seq<u32>, c: u32)
    ensures
        occurrences(s, c) >= 0,
    decreases s.len(),
{
    if s.len() > 0 {
        lemma_occurrences_nonneg(s.drop_last(), c);
    }
}

proof fn lemma_occurrences_take_le(s: Seq<u32>, j: int, c: u32)
    requires
        0 <= j <= s.len(),
    ensures
        occurrences(s.take(j), c) <= occurrences(s, c),
    decreases s.len() - j,
{
    if j < s.len() {
        lemma_occurrences_take_le(s, j + 1, c);
        assert(s.take(j + 1).drop_last() =~= s.take(j));
        lemma_occurrences_nonneg(s.take(j), c);
    } else {
        assert(s.take(j) =~= s);
    }
}

/// One category's score: every article's window total, counted once per
/// direct membership of that category, over articles `0 .. upto`.
pub open spec fn cat_total_upto(
    views: Map<u32, Vec<u32>>,
    cats_adj: Seq<Seq<u32>>,
    start_date: Date,
    end_date: Date,
    c: u32,
    upto: int,
) -> int
    decreases upto,
{
    if upto <= 0 {
        0
    } else {
        cat_total_upto(views, cats_adj, start_date, end_date, c, upto - 1) + window_total_spec(
            views,
            (upto - 1) as u32,
            start_date,
            end_date,
        ) * occurrences(cats_adj[upto - 1], c)
    }
}

proof fn lemma_cat_total_upto_nonneg(
    views: Map<u32, Vec<u32>>,
    cats_adj: Seq<Seq<u32>>,
    start_date: Date,
    end_date: Date,
    c: u32,
    upto: int,
)
    requires
        start_date.wf(),
        end_date.wf(),
    ensures
        cat_total_upto(views, cats_adj, start_date, end_date, c, upto) >= 0,
    decreases upto,
{
    if upto > 0 {
        lemma_cat_total_upto_nonneg(views, cats_adj, start_date, end_date, c, upto - 1);
        lemma_window_total_bound(views, (upto - 1) as u32, start_date, end_date);
        lemma_occurrences_nonneg(cats_adj[upto - 1], c);
        assert(window_total_spec(views, (upto - 1) as u32, start_date, end_date) * occurrences(
            cats_adj[upto - 1],
            c,
        ) >= 0) by (nonlinear_arith)
            requires
                window_total_spec(views, (upto - 1) as u32, start_date, end_date) >= 0
                    && occurrences(cats_adj[upto - 1], c) >= 0,
        ;
    }
}

impl PageViewEngine {
    /// One category's full direct-membership score over a window.
    pub open spec fn cat_window_total(&self, c: u32, start_date: Date, end_date: Date) -> int {
        cat_total_upto(
            self.daily_views@,
            self.wikigraph.article_cats@,
            start_date,
            end_date,
            c,
            self.wikigraph.num_arts(),
        )
    }

    /// Every article's window total over `[start, end]`, indexed by dense id.
    #[verifier::rlimit(100)]
    fn all_window_totals(&self, start_date: Date, end_date: Date) -> (totals: Vec<u64>)
        requires
            self.wf(),
            start_date.wf(),
            end_date.wf(),
        ensures
            totals@.len() == self.wikigraph.num_arts(),
            forall|a: int|
                0 <= a < totals@.len() ==> (#[trigger] totals@[a]) == window_total_spec(
                    self.daily_views@,
                    a as u32,
                    start_date,
                    end_date,
                ),
    {
        let num_arts = self.wikigraph.art_dense_to_original.len();
        let mut totals: Vec<u64> = vec![0u64; num_arts];
        if !start_date.le(&end_date) {
            proof {
                reveal(window_total_spec);
            }
            return totals;
        }
        proof {
            start_date.lemma_le_day_number(end_date);
            start_date.lemma_day_number_bound();
            end_date.lemma_day_number_bound();
        }
        let n_days: u32 = end_date.day_number() - start_date.day_number();
        let mut k: u32 = 0;
        let mut curr = start_date;
        let ghost mut done_until: Date = start_date;
        while k <= n_days
            invariant
                self.wf(),
                start_date.wf(),
                end_date.wf(),
                start_date.le_spec(end_date),
                num_arts == self.wikigraph.num_arts(),
                totals@.len() == num_arts,
                n_days == end_date.day_number_spec() - start_date.day_number_spec(),
                n_days < 3652060,
                k <= n_days + 1,
                k <= n_days ==> curr.wf() && curr.day_number_spec() == start_date.day_number_spec()
                    + k && curr.le_spec(end_date),
                k == 0 ==> curr == start_date && (forall|a: int|
                    0 <= a < num_arts ==> (#[trigger] totals@[a]) == 0),
                k > 0 ==> {
                    &&& done_until.wf()
                    &&& done_until.day_number_spec() == start_date.day_number_spec() + k - 1
                    &&& done_until.le_spec(end_date)
                    &&& (forall|a: int|
                        0 <= a < num_arts ==> (#[trigger] totals@[a]) == window_total_spec(
                            self.daily_views@,
                            a as u32,
                            start_date,
                            done_until,
                        ))
                    &&& (k <= n_days ==> curr == done_until.succ_spec())
                },
            decreases n_days + 1 - k,
        {
            let ghost prev_totals = totals@;
            let key = date_key(curr);
            proof {
                if k > 0 {
                    start_date.lemma_le_day_number(done_until);
                    done_until.lemma_le_day_number(end_date);
                    assert forall|a: int| 0 <= a < num_arts implies 0 <= (#[trigger] totals@[a])
                        + day_view_spec(self.daily_views@, curr, a as u32) <= u64::MAX by {
                        lemma_window_total_bound(
                            self.daily_views@,
                            a as u32,
                            start_date,
                            done_until,
                        );
                    }
                }
            }
            match self.daily_views.get(&key) {
                Some(day_vec) => {
                    let bound = if day_vec.len() < num_arts {
                        day_vec.len()
                    } else {
                        num_arts
                    };
                    let mut a: usize = 0;
                    while a < bound
                        invariant
                            num_arts == totals@.len(),
                            bound <= num_arts,
                            bound <= day_vec@.len(),
                            a <= bound,
                            curr.wf(),
                            self.wf(),
                            self.daily_views@.contains_key(date_key_spec(curr) as u32),
                            day_vec@ == self.daily_views@[date_key_spec(curr) as u32]@,
                            day_vec@.len() <= num_arts || bound == num_arts,
                            forall|a2: int|
                                0 <= a2 < a ==> (#[trigger] totals@[a2]) == prev_totals[a2]
                                    + day_view_spec(self.daily_views@, curr, a2 as u32),
                            forall|a2: int|
                                a <= a2 < num_arts ==> (#[trigger] totals@[a2]) == prev_totals[a2],
                            forall|a2: int|
                                0 <= a2 < num_arts ==> prev_totals[a2] + day_view_spec(
                                    self.daily_views@,
                                    curr,
                                    a2 as u32,
                                ) <= u64::MAX && prev_totals[a2] >= 0,
                        decreases bound - a,
                    {
                        let v = day_vec[a];
                        proof {
                            assert(day_view_spec(self.daily_views@, curr, a as u32) == v);
                        }
                        totals[a] = totals[a] + v as u64;
                        a = a + 1;
                    }
                    proof {
                        assert forall|a2: int|
                            0 <= a2 < num_arts implies (#[trigger] totals@[a2]) == prev_totals[a2]
                            + day_view_spec(self.daily_views@, curr, a2 as u32) by {
                            if a2 >= bound {
                                assert(day_view_spec(self.daily_views@, curr, a2 as u32) == 0);
                            }
                        }
                    }
                },
                None => {
                    proof {
                        assert(forall|a2: int|
                            0 <= a2 < num_arts ==> #[trigger] day_view_spec(
                                self.daily_views@,
                                curr,
                                a2 as u32,
                            ) == 0);
                    }
                },
            }
            proof {
                assert forall|a2: int| 0 <= a2 < num_arts implies (#[trigger] totals@[a2])
                    == window_total_spec(self.daily_views@, a2 as u32, start_date, curr) by {
                    assert(totals@[a2] == prev_totals[a2] + day_view_spec(
                        self.daily_views@,
                        curr,
                        a2 as u32,
                    ));
                    if k == 0 {
                        assert(window_total_spec(self.daily_views@, a2 as u32, start_date, curr)
                            == day_view_spec(self.daily_views@, curr, a2 as u32)) by {
                            reveal(window_total_spec);
                        }
                    } else {
                        start_date.lemma_le_day_number(done_until);
                        done_until.lemma_le_day_number(end_date);
                        lemma_window_total_extend(
                            self.daily_views@,
                            a2 as u32,
                            start_date,
                            done_until,
                        );
                    }
                }
                done_until = curr;
            }
            if k < n_days {
                proof {
                    curr.lemma_le_day_number(end_date);
                    curr.lemma_succ_le(end_date);
                }
                curr = curr.succ();
            }
            k = k + 1;
        }
        proof {
            start_date.lemma_le_day_number(done_until);
            done_until.lemma_le_day_number(end_date);
            end_date.lemma_le_day_number(done_until);
            assert(done_until == end_date);
        }
        totals
    }
}

} // verus!

verus! {

impl PageViewEngine {
    /// Scatter phase: fold every article's window total into each category
    /// it is a direct member of (once per membership row), collecting the
    /// contributing articles per category.  Category scores saturate at
    /// `u64::MAX`.
    #[verifier::rlimit(100)]
    fn scatter_totals(&self, totals: &Vec<u64>, Ghost(start_date): Ghost<Date>, Ghost(end_date): Ghost<Date>) -> (r: (
        Vec<u64>,
        Vec<Vec<(u32, u64)>>,
    ))
        requires
            self.wf(),
            start_date.wf(),
            end_date.wf(),
            totals@.len() == self.wikigraph.num_arts(),
            forall|a: int|
                0 <= a < totals@.len() ==> (#[trigger] totals@[a]) == window_total_spec(
                    self.daily_views@,
                    a as u32,
                    start_date,
                    end_date,
                ),
        ensures
            r.0@.len() == self.wikigraph.num_cats(),
            r.1@.len() == self.wikigraph.num_cats(),
            forall|c: int|
                0 <= c < r.0@.len() ==> (#[trigger] r.0@[c]) == capped(
                    self.cat_window_total(c as u32, start_date, end_date),
                ),
            forall|c: int, e: int|
                0 <= c < r.1@.len() && 0 <= e < r.1@[c].len() ==> {
                    &&& ((#[trigger] r.1@[c][e]).0 as int) < self.wikigraph.num_arts()
                    &&& r.1@[c][e].1 == window_total_spec(
                        self.daily_views@,
                        r.1@[c][e].0,
                        start_date,
                        end_date,
                    )
                    &&& r.1@[c][e].1 > 0
                    &&& occurrences(self.wikigraph.article_cats@[r.1@[c][e].0 as int], c as u32)
                        > 0
                },
            forall|c: int, a: u32|
                0 <= c < r.1@.len() && (a as int) < self.wikigraph.num_arts()
                    && #[trigger] window_total_spec(self.daily_views@, a, start_date, end_date) > 0
                    && occurrences(self.wikigraph.article_cats@[a as int], c as u32) > 0 ==> (
                #[trigger] r.1@[c]@).contains(
                    (a, window_total_spec(self.daily_views@, a, start_date, end_date) as u64),
                ),
    {
        let ghost views = self.daily_views@;
        let ghost cats_adj = self.wikigraph.article_cats@;
        let num_cats = self.wikigraph.cat_dense_to_original.len();
        let num_arts = self.wikigraph.art_dense_to_original.len();
        let mut cat_totals: Vec<u64> = vec![0u64; num_cats];
        let mut contributors: Vec<Vec<(u32, u64)>> = Vec::new();
        let mut c0: usize = 0;
        while c0 < num_cats
            invariant
                c0 <= num_cats,
                contributors@.len() == c0,
                forall|c: int| 0 <= c < c0 ==> (#[trigger] contributors@[c])@.len() == 0,
            decreases num_cats - c0,
        {
            contributors.push(Vec::new());
            c0 = c0 + 1;
        }
        let mut a: usize = 0;
        while a < num_arts
            invariant
                self.wf(),
                start_date.wf(),
                end_date.wf(),
                views == self.daily_views@,
                cats_adj == self.wikigraph.article_cats@,
                num_cats == self.wikigraph.num_cats(),
                num_arts == self.wikigraph.num_arts(),
                totals@.len() == num_arts,
                forall|a2: int|
                    0 <= a2 < totals@.len() ==> (#[trigger] totals@[a2]) == window_total_spec(
                        views,
                        a2 as u32,
                        start_date,
                        end_date,
                    ),
                a <= num_arts,
                cat_totals@.len() == num_cats,
                contributors@.len() == num_cats,
                forall|c: int|
                    0 <= c < num_cats ==> (#[trigger] cat_totals@[c]) == capped(
                        cat_total_upto(views, cats_adj, start_date, end_date, c as u32, a as int),
                    ),
                forall|c: int, e: int|
                    0 <= c < num_cats && 0 <= e < contributors@[c].len() ==> {
                        &&& ((#[trigger] contributors@[c][e]).0 as int) < a
                        &&& contributors@[c][e].1 == window_total_spec(
                            views,
                            contributors@[c][e].0,
                            start_date,
                            end_date,
                        )
                        &&& contributors@[c][e].1 > 0
                        &&& occurrences(cats_adj[contributors@[c][e].0 as int], c as u32) > 0
                    },
                forall|c: int, a2: u32|
                    0 <= c < num_cats && (a2 as int) < a && #[trigger] window_total_spec(
                        views,
                        a2,
                        start_date,
                        end_date,
                    ) > 0 && occurrences(cats_adj[a2 as int], c as u32) > 0 ==> (
                    #[trigger] contributors@[c]@).contains(
                        (a2, window_total_spec(views, a2, start_date, end_date) as u64),
                    ),
            decreases num_arts - a,
        {
            let t = totals[a];
            if t > 0 {
                let cats_of_a = self.wikigraph.article_cats.get(a as u32);
                let n_nb = cats_of_a.len();
                let mut j: usize = 0;
                while j < n_nb
                    invariant
                        self.wf(),
                        start_date.wf(),
                        end_date.wf(),
                        views == self.daily_views@,
                        cats_adj == self.wikigraph.article_cats@,
                        num_cats == self.wikigraph.num_cats(),
                        num_arts == self.wikigraph.num_arts(),
                        a < num_arts,
                        cats_of_a@ == cats_adj[a as int],
                        n_nb == cats_of_a@.len(),
                        j <= n_nb,
                        t == window_total_spec(views, a as u32, start_date, end_date),
                        t > 0,
                        cat_totals@.len() == num_cats,
                        contributors@.len() == num_cats,
                        forall|c: int|
                            0 <= c < num_cats ==> (#[trigger] cat_totals@[c]) == capped(
                                cat_total_upto(
                                    views,
                                    cats_adj,
                                    start_date,
                                    end_date,
                                    c as u32,
                                    a as int,
                                ) + t * occurrences(cats_of_a@.take(j as int), c as u32),
                            ),
                        forall|c: int, e: int|
                            0 <= c < num_cats && 0 <= e < contributors@[c].len() ==> {
                                &&& ((#[trigger] contributors@[c][e]).0 as int) <= a
                                &&& contributors@[c][e].1 == window_total_spec(
                                    views,
                                    contributors@[c][e].0,
                                    start_date,
                                    end_date,
                                )
                                &&& contributors@[c][e].1 > 0
                                &&& occurrences(cats_adj[contributors@[c][e].0 as int], c as u32)
                                    > 0
                            },
                        forall|c: int, a2: u32|
                            0 <= c < num_cats && (a2 as int) < a && #[trigger] window_total_spec(
                                views,
                                a2,
                                start_date,
                                end_date,
                            ) > 0 && occurrences(cats_adj[a2 as int], c as u32) > 0 ==> (
                            #[trigger] contributors@[c]@).contains(
                                (a2, window_total_spec(views, a2, start_date, end_date) as u64),
                            ),
                        forall|c: int|
                            0 <= c < num_cats && occurrences(
                                cats_of_a@.take(j as int),
                                c as u32,
                            ) > 0 ==> (#[trigger] contributors@[c]@).contains((a as u32, t)),
                    decreases n_nb - j,
                {
                    let cd = cats_of_a[j];
                    proof {
                        assert((cd as int) < num_cats);
                        assert(cats_of_a@.take(j as int + 1).drop_last() =~= cats_of_a@.take(
                            j as int,
                        ));
                        assert(cats_of_a@.take(j as int + 1).last() == cats_of_a@[j as int]);
                        lemma_cat_total_upto_nonneg(
                            views,
                            cats_adj,
                            start_date,
                            end_date,
                            cd,
                            a as int,
                        );
                        lemma_occurrences_nonneg(cats_of_a@.take(j as int), cd);
                        assert(t * occurrences(cats_of_a@.take(j as int), cd) >= 0)
                            by (nonlinear_arith)
                            requires
                                t >= 0 && occurrences(cats_of_a@.take(j as int), cd) >= 0,
                        ;
                        assert(t * occurrences(cats_of_a@.take(j as int + 1), cd) == t
                            * occurrences(cats_of_a@.take(j as int), cd) + t) by (nonlinear_arith)
                            requires
                                occurrences(cats_of_a@.take(j as int + 1), cd) == occurrences(
                                    cats_of_a@.take(j as int),
                                    cd,
                                ) + 1,
                        ;
                    }
                    let ghost old_ct = cat_totals@;
                    let ghost old_contrib = contributors@;
                    let prev = cat_totals[cd as usize];
                    cat_totals[cd as usize] = prev.saturating_add(t);
                    contributors[cd as usize].push((a as u32, t));
                    proof {
                        lemma_occurrences_take_le(cats_of_a@, j as int + 1, cd);
                        lemma_occurrences_nonneg(cats_of_a@, cd);
                        assert forall|c: int|
                            0 <= c < num_cats && occurrences(
                                cats_of_a@.take(j as int + 1),
                                c as u32,
                            ) > 0 implies (#[trigger] contributors@[c]@).contains(
                            (a as u32, t),
                        ) by {
                            if c == cd {
                                assert(contributors@[c]@[contributors@[c]@.len() - 1] == (
                                    a as u32,
                                    t,
                                ));
                            } else {
                                assert(occurrences(cats_of_a@.take(j as int + 1), c as u32)
                                    == occurrences(cats_of_a@.take(j as int), c as u32));
                                assert(old_contrib[c]@.contains((a as u32, t)));
                                let e = choose|e: int|
                                    0 <= e < old_contrib[c]@.len() && old_contrib[c]@[e] == (
                                    a as u32,
                                    t,
                                );
                                assert(contributors@[c]@[e] == (a as u32, t));
                            }
                        }
                        assert forall|c: int, a2: u32|
                            0 <= c < num_cats && (a2 as int) < a && #[trigger] window_total_spec(
                                views,
                                a2,
                                start_date,
                                end_date,
                            ) > 0 && occurrences(cats_adj[a2 as int], c as u32) > 0 implies (
                        #[trigger] contributors@[c]@).contains(
                            (a2, window_total_spec(views, a2, start_date, end_date) as u64),
                        ) by {
                            let w = (a2, window_total_spec(views, a2, start_date, end_date) as u64);
                            assert(old_contrib[c]@.contains(w));
                            let e = choose|e: int|
                                0 <= e < old_contrib[c]@.len() && old_contrib[c]@[e] == w;
                            assert(contributors@[c]@[e] == w);
                        }
                    }
                    j = j + 1;
                }
                proof {
                    assert(cats_of_a@.take(n_nb as int) =~= cats_of_a@);
                    assert forall|c: int| 0 <= c < num_cats implies (#[trigger] cat_totals@[c])
                        == capped(
                        cat_total_upto(
                            views,
                            cats_adj,
                            start_date,
                            end_date,
                            c as u32,
                            a as int + 1,
                        ),
                    ) by {
                        assert(cat_total_upto(
                            views,
                            cats_adj,
                            start_date,
                            end_date,
                            c as u32,
                            a as int + 1,
                        ) == cat_total_upto(views, cats_adj, start_date, end_date, c as u32, a as int)
                            + t * occurrences(cats_adj[a as int], c as u32));
                    }
                    assert forall|c: int, a2: u32|
                        0 <= c < num_cats && (a2 as int) < a + 1 && #[trigger] window_total_spec(
                            views,
                            a2,
                            start_date,
                            end_date,
                        ) > 0 && occurrences(cats_adj[a2 as int], c as u32) > 0 implies (
                    #[trigger] contributors@[c]@).contains(
                        (a2, window_total_spec(views, a2, start_date, end_date) as u64),
                    ) by {
                        if a2 as int == a {
                            assert(occurrences(cats_of_a@.take(n_nb as int), c as u32) > 0);
                        }
                    }
                }
            } else {
                proof {
                    assert forall|c: int| 0 <= c < num_cats implies (#[trigger] cat_totals@[c])
                        == capped(
                        cat_total_upto(
                            views,
                            cats_adj,
                            start_date,
                            end_date,
                            c as u32,
                            a as int + 1,
                        ),
                    ) by {
                        lemma_occurrences_nonneg(cats_adj[a as int], c as u32);
                        assert(t == 0);
                        assert(window_total_spec(views, a as u32, start_date, end_date)
                            * occurrences(cats_adj[a as int], c as u32) == 0) by (nonlinear_arith)
                            requires
                                window_total_spec(views, a as u32, start_date, end_date) == 0,
                        ;
                    }
                }
            }
            a = a + 1;
        }
        (cat_totals, contributors)
    }
}

} // verus!

verus! {

/// In a strictly increasing integer sequence, the entry at position `e` is
/// at least `e`.
proof fn lemma_strict_incr_ge_index(s: Seq<int>)
    requires
        forall|i: int| 0 <= i < s.len() ==> s[i] >= 0,
        forall|i: int, j: int| 0 <= i < j < s.len() ==> s[i] < s[j],
    ensures
        forall|i: int| 0 <= i < s.len() ==> s[i] >= i,
    decreases s.len(),
{
    if s.len() > 0 {
        lemma_strict_incr_ge_index(s.drop_last());
        assert forall|i: int| 0 <= i < s.len() implies s[i] >= i by {
            if i < s.len() - 1 {
                assert(s.drop_last()[i] >= i);
            } else if s.len() >= 2 {
                assert(s.drop_last()[s.len() - 2] >= s.len() - 2);
                assert(s[s.len() - 2] < s[s.len() - 1]);
            }
        }
    }
}

impl PageViewEngine {
    /// What one ranked category's article list must be: contributing
    /// articles (direct members with positive window totals), exact totals,
    /// views descending, at most `n`, complete unless cut at `n`, and no
    /// omitted contributor out-viewing a listed one.
    pub open spec fn cat_article_list_ok(
        &self,
        c: u32,
        arts: Seq<ArticleRank>,
        start_date: Date,
        end_date: Date,
        n: int,
    ) -> bool {
        exists|ds: Seq<u32>|
            {
                &&& (#[trigger] ds.len()) == arts.len()
                &&& forall|k: int|
                    0 <= k < ds.len() ==> {
                        &&& ((#[trigger] ds[k]) as int) < self.wikigraph.num_arts()
                        &&& arts[k].article_qid
                            == self.wikigraph.art_dense_to_original@[ds[k] as int]
                        &&& arts[k].total_views == window_total_spec(
                            self.daily_views@,
                            ds[k],
                            start_date,
                            end_date,
                        )
                        &&& arts[k].total_views > 0
                        &&& occurrences(self.wikigraph.article_cats@[ds[k] as int], c) > 0
                    }
                &&& forall|k1: int, k2: int|
                    0 <= k1 < k2 < arts.len() ==> (arts[k1].total_views) >= (arts[k2].total_views)
                &&& arts.len() <= n
                &&& (arts.len() == n || (forall|a: u32|
                    (a as int) < self.wikigraph.num_arts() && #[trigger] window_total_spec(
                        self.daily_views@,
                        a,
                        start_date,
                        end_date,
                    ) > 0 && occurrences(self.wikigraph.article_cats@[a as int], c) > 0
                        ==> ds.contains(a)))
                &&& forall|a: u32, k: int|
                    (a as int) < self.wikigraph.num_arts() && #[trigger] window_total_spec(
                        self.daily_views@,
                        a,
                        start_date,
                        end_date,
                    ) > 0 && occurrences(self.wikigraph.article_cats@[a as int], c) > 0
                        && !ds.contains(a) && 0 <= k < arts.len() ==> window_total_spec(
                        self.daily_views@,
                        a,
                        start_date,
                        end_date,
                    ) <= (#[trigger] arts[k]).total_views
            }
    }

    /// What the top-categories ranking must be: distinct categories with
    /// positive saturated scores, scores descending with ties by ascending
    /// dense id, at most `n`, complete unless cut at `n`, no omitted
    /// positive category ranking above a listed one, and each listed
    /// category carrying a correct article list.
    pub open spec fn top_categories_ok(
        &self,
        r: Seq<CategoryRank>,
        start_date: Date,
        end_date: Date,
        n: int,
    ) -> bool {
        exists|cs: Seq<u32>|
            {
                &&& (#[trigger] cs.len()) == r.len()
                &&& forall|i: int, j: int| 0 <= i < j < cs.len() ==> cs[i] != cs[j]
                &&& forall|i: int|
                    0 <= i < cs.len() ==> {
                        &&& ((#[trigger] cs[i]) as int) < self.wikigraph.num_cats()
                        &&& r[i].category_qid
                            == self.wikigraph.cat_dense_to_original@[cs[i] as int]
                        &&& r[i].total_views == capped(
                            self.cat_window_total(cs[i], start_date, end_date),
                        )
                        &&& r[i].total_views > 0
                        &&& self.cat_article_list_ok(
                            cs[i],
                            r[i].top_articles@,
                            start_date,
                            end_date,
                            n,
                        )
                    }
                &&& forall|i: int, j: int|
                    0 <= i < j < cs.len() ==> rank_precedes(
                        (cs[i], r[i].total_views),
                        (cs[j], r[j].total_views),
                    )
                &&& r.len() <= n
                &&& (r.len() == n || (forall|c: u32|
                    (c as int) < self.wikigraph.num_cats() && #[trigger] capped(
                        self.cat_window_total(c, start_date, end_date),
                    ) > 0 ==> cs.contains(c)))
                &&& forall|c: u32, i: int|
                    (c as int) < self.wikigraph.num_cats() && #[trigger] capped(
                        self.cat_window_total(c, start_date, end_date),
                    ) > 0 && !cs.contains(c) && 0 <= i < cs.len() ==> rank_precedes(
                        ((#[trigger] cs[i]), r[i].total_views),
                        (c, capped(self.cat_window_total(c, start_date, end_date)) as u64),
                    )
            }
    }
}

/// From a category's contributor list and its sorted, truncated image, the
/// produced article list is correct.
proof fn lemma_member_list_witness(
    eng: &PageViewEngine,
    c: u32,
    member_views: Seq<(u32, u64)>,
    sorted: Seq<(u32, u64)>,
    out: Seq<ArticleRank>,
    start_date: Date,
    end_date: Date,
    top_n: int,
)
    requires
        forall|e: int|
            0 <= e < member_views.len() ==> {
                &&& ((#[trigger] member_views[e]).0 as int) < eng.wikigraph.num_arts()
                &&& member_views[e].1 == window_total_spec(
                    eng.daily_views@,
                    member_views[e].0,
                    start_date,
                    end_date,
                )
                &&& member_views[e].1 > 0
                &&& occurrences(eng.wikigraph.article_cats@[member_views[e].0 as int], c) > 0
            },
        forall|a: u32|
            (a as int) < eng.wikigraph.num_arts() && #[trigger] window_total_spec(
                eng.daily_views@,
                a,
                start_date,
                end_date,
            ) > 0 && occurrences(eng.wikigraph.article_cats@[a as int], c) > 0 ==> member_views.contains(
                (a, window_total_spec(eng.daily_views@, a, start_date, end_date) as u64),
            ),
        sorted.len() == member_views.len(),
        forall|w: (u32, u64)| sorted.contains(w) <==> member_views.contains(w),
        forall|i: int, j: int| 0 <= i < j < sorted.len() ==> rank_precedes(sorted[i], sorted[j]),
        top_n >= 0,
        out.len() == (if top_n < sorted.len() {
            top_n
        } else {
            sorted.len() as int
        }),
        forall|m: int|
            0 <= m < out.len() ==> (#[trigger] out[m]).total_views == sorted[m].1
                && (sorted[m].0 as int) < eng.wikigraph.num_arts() && out[m].article_qid
                == eng.wikigraph.art_dense_to_original@[sorted[m].0 as int],
    ensures
        eng.cat_article_list_ok(c, out, start_date, end_date, top_n),
{
    let ds = Seq::new(out.len() as nat, |m: int| sorted[m].0);
    assert forall|k: int| 0 <= k < ds.len() implies {
        &&& ((#[trigger] ds[k]) as int) < eng.wikigraph.num_arts()
        &&& out[k].article_qid == eng.wikigraph.art_dense_to_original@[ds[k] as int]
        &&& out[k].total_views == window_total_spec(
            eng.daily_views@,
            ds[k],
            start_date,
            end_date,
        )
        &&& out[k].total_views > 0
        &&& occurrences(eng.wikigraph.article_cats@[ds[k] as int], c) > 0
    } by {
        assert(sorted.contains(sorted[k]));
        let p = choose|p: int| 0 <= p < member_views.len() && member_views[p] == sorted[k];
    }
    assert forall|k1: int, k2: int|
        0 <= k1 < k2 < out.len() implies (out[k1].total_views) >= (out[k2].total_views) by {
        assert(rank_precedes(sorted[k1], sorted[k2]));
    }
    if out.len() != top_n {
        assert(out.len() == sorted.len());
        assert forall|a: u32|
            (a as int) < eng.wikigraph.num_arts() && #[trigger] window_total_spec(
                eng.daily_views@,
                a,
                start_date,
                end_date,
            ) > 0 && occurrences(eng.wikigraph.article_cats@[a as int], c) > 0 implies ds.contains(
            a,
        ) by {
            let w = (a, window_total_spec(eng.daily_views@, a, start_date, end_date) as u64);
            assert(member_views.contains(w));
            assert(sorted.contains(w));
            let m = choose|m: int| 0 <= m < sorted.len() && sorted[m] == w;
            assert(ds[m] == a);
        }
    }
    assert forall|a: u32, k: int|
        (a as int) < eng.wikigraph.num_arts() && #[trigger] window_total_spec(
            eng.daily_views@,
            a,
            start_date,
            end_date,
        ) > 0 && occurrences(eng.wikigraph.article_cats@[a as int], c) > 0 && !ds.contains(a) && 0
            <= k < out.len() implies window_total_spec(
        eng.daily_views@,
        a,
        start_date,
        end_date,
    ) <= (#[trigger] out[k]).total_views by {
        let w = (a, window_total_spec(eng.daily_views@, a, start_date, end_date) as u64);
        assert(member_views.contains(w));
        assert(sorted.contains(w));
        let m = choose|m: int| 0 <= m < sorted.len() && sorted[m] == w;
        if m < out.len() {
            assert(ds[m] == a);
            assert(false);
        }
        assert(rank_precedes(sorted[k], sorted[m]));
    }
    assert(eng.cat_article_list_ok(c, out, start_date, end_date, top_n)) by {
        assert(ds.len() == out.len());
    }
}

impl PageViewEngine {
    /// Ranks one scattered category: sorts its contributors by views
    /// descending (ties by ascending dense id) and keeps the top `top_n` as
    /// its representative articles.
    #[verifier::rlimit(60)]
    fn build_category_rank(
        &self,
        cd: u32,
        ct: u64,
        member_views: &Vec<(u32, u64)>,
        top_n: usize,
        Ghost(start_date): Ghost<Date>,
        Ghost(end_date): Ghost<Date>,
    ) -> (r: CategoryRank)
        requires
            self.wf(),
            start_date.wf(),
            end_date.wf(),
            (cd as int) < self.wikigraph.num_cats(),
            forall|e: int|
                0 <= e < member_views@.len() ==> {
                    &&& ((#[trigger] member_views@[e]).0 as int) < self.wikigraph.num_arts()
                    &&& member_views@[e].1 == window_total_spec(
                        self.daily_views@,
                        member_views@[e].0,
                        start_date,
                        end_date,
                    )
                    &&& member_views@[e].1 > 0
                    &&& occurrences(self.wikigraph.article_cats@[member_views@[e].0 as int], cd) > 0
                },
            forall|a: u32|
                (a as int) < self.wikigraph.num_arts() && #[trigger] window_total_spec(
                    self.daily_views@,
                    a,
                    start_date,
                    end_date,
                ) > 0 && occurrences(self.wikigraph.article_cats@[a as int], cd) > 0
                    ==> member_views@.contains(
                    (a, window_total_spec(self.daily_views@, a, start_date, end_date) as u64),
                ),
        ensures
            r.category_qid == self.wikigraph.cat_dense_to_original@[cd as int],
            r.total_views == ct,
            self.cat_article_list_ok(cd, r.top_articles@, start_date, end_date, top_n as int),
    {
        let sorted = sort_pairs_desc(member_views);
        let limit = if top_n < sorted.len() {
            top_n
        } else {
            sorted.len()
        };
        let mut out: Vec<ArticleRank> = Vec::new();
        let mut k: usize = 0;
        while k < limit
            invariant
                self.wf(),
                limit <= sorted@.len(),
                k <= limit,
                out@.len() == k,
                forall|m: int|
                    0 <= m < sorted@.len() ==> member_views@.contains(#[trigger] sorted@[m]),
                forall|e: int|
                    0 <= e < member_views@.len() ==> ((#[trigger] member_views@[e]).0 as int)
                        < self.wikigraph.num_arts(),
                forall|m: int|
                    0 <= m < k ==> (#[trigger] out@[m]).total_views == sorted@[m].1
                        && (sorted@[m].0 as int) < self.wikigraph.num_arts() && out@[m].article_qid
                        == self.wikigraph.art_dense_to_original@[sorted@[m].0 as int],
            decreases limit - k,
        {
            proof {
                assert(sorted@.contains(sorted@[k as int]));
            }
            let pair = sorted[k];
            out.push(ArticleRank {
                article_qid: self.wikigraph.art_dense_to_original[pair.0 as usize],
                total_views: pair.1,
            });
            k = k + 1;
        }
        let r = CategoryRank { category_qid: self.wikigraph.cat_dense_to_original[cd as usize], total_views: ct, top_articles: out };
        proof {
            lemma_member_list_witness(
                self,
                cd,
                member_views@,
                sorted@,
                r.top_articles@,
                start_date,
                end_date,
                top_n as int,
            );
        }
        r
    }
}

} // verus!

verus! {

/// From the per-category score pairs, their sorted image, and the emitted
/// positive prefix, the produced ranking is a correct top-N.
#[verifier::rlimit(60)]
proof fn lemma_top_categories_witness(
    eng: &PageViewEngine,
    cpairs: Seq<(u32, u64)>,
    sorted: Seq<(u32, u64)>,
    results: Seq<CategoryRank>,
    poss: Seq<int>,
    limit: int,
    start_date: Date,
    end_date: Date,
    top_n: int,
)
    requires
        cpairs.len() == eng.wikigraph.num_cats(),
        forall|k: int|
            0 <= k < cpairs.len() ==> (#[trigger] cpairs[k]).0 == k as u32 && cpairs[k].1
                == capped(eng.cat_window_total(k as u32, start_date, end_date)),
        sorted.len() == cpairs.len(),
        forall|w: (u32, u64)| sorted.contains(w) <==> cpairs.contains(w),
        forall|i: int, j: int| 0 <= i < j < sorted.len() ==> rank_precedes(sorted[i], sorted[j]),
        forall|i: int, j: int| 0 <= i < j < sorted.len() ==> (sorted[i].0) != (sorted[j].0),
        top_n >= 0,
        limit == (if top_n < sorted.len() {
            top_n
        } else {
            sorted.len() as int
        }),
        results.len() == poss.len(),
        forall|e1: int, e2: int| 0 <= e1 < e2 < poss.len() ==> poss[e1] < poss[e2],
        forall|e: int| 0 <= e < poss.len() ==> 0 <= #[trigger] poss[e] < limit,
        forall|m: int| 0 <= m < limit ==> ((#[trigger] sorted[m]).1 > 0 <==> exists|e: int|
            0 <= e < poss.len() && #[trigger] poss[e] == m),
        forall|e: int|
            0 <= e < results.len() ==> {
                &&& ((#[trigger] results[e]).total_views) == sorted[poss[e]].1
                &&& results[e].total_views > 0
                &&& (sorted[poss[e]].0 as int) < eng.wikigraph.num_cats()
                &&& results[e].category_qid
                    == eng.wikigraph.cat_dense_to_original@[sorted[poss[e]].0 as int]
                &&& eng.cat_article_list_ok(
                    sorted[poss[e]].0,
                    results[e].top_articles@,
                    start_date,
                    end_date,
                    top_n,
                )
            },
    ensures
        eng.top_categories_ok(results, start_date, end_date, top_n),
{
    let cs = Seq::new(results.len() as nat, |e: int| sorted[poss[e]].0);
    lemma_strict_incr_ge_index(poss);
    assert(results.len() <= limit) by {
        if results.len() > 0 {
            assert(poss[poss.len() - 1] >= poss.len() - 1);
        }
    }
    assert forall|i: int, j: int| 0 <= i < j < cs.len() implies cs[i] != cs[j] by {
        assert(poss[i] < poss[j]);
        assert(sorted[poss[i]].0 != sorted[poss[j]].0);
    }
    assert forall|i: int, j: int| 0 <= i < j < cs.len() implies rank_precedes(
        (cs[i], results[i].total_views),
        (cs[j], results[j].total_views),
    ) by {
        assert(rank_precedes(sorted[poss[i]], sorted[poss[j]]));
    }
    assert forall|i: int| 0 <= i < cs.len() implies {
        &&& ((#[trigger] cs[i]) as int) < eng.wikigraph.num_cats()
        &&& results[i].total_views == capped(
            eng.cat_window_total(cs[i], start_date, end_date),
        )
    } by {
        assert(sorted.contains(sorted[poss[i]]));
        let p = choose|p: int| 0 <= p < cpairs.len() && cpairs[p] == sorted[poss[i]];
        assert(cpairs[p].0 == p as u32);
    }
    if results.len() != top_n {
        assert forall|c: u32|
            (c as int) < eng.wikigraph.num_cats() && #[trigger] capped(
                eng.cat_window_total(c, start_date, end_date),
            ) > 0 implies cs.contains(c) by {
            let w = (c, capped(eng.cat_window_total(c, start_date, end_date)) as u64);
            assert(cpairs[c as int] == w);
            assert(cpairs.contains(w));
            assert(sorted.contains(w));
            let m = choose|m: int| 0 <= m < sorted.len() && sorted[m] == w;
            assert(m < limit) by {
                if m >= limit {
                    // Then the cut was at `top_n` and some earlier slot was
                    // already zero, so every positive sits before it.
                    assert(limit == top_n);
                    assert(results.len() < limit);
                    // Not all of the first `limit` slots are positive.
                    if forall|m2: int| 0 <= m2 < limit ==> (#[trigger] sorted[m2]).1 > 0 {
                        // poss then covers limit distinct values with fewer
                        // entries, which the ordering forbids.
                        lemma_poss_dense_prefix(sorted, poss, limit);
                        assert(false);
                    }
                    let m2 = choose|m2: int|
                        0 <= m2 < limit && !((#[trigger] sorted[m2]).1 > 0);
                    if m2 < m {
                        assert(rank_precedes(sorted[m2], sorted[m]));
                        assert(false);
                    } else {
                        assert(rank_precedes(sorted[m], sorted[m2]));
                        assert(false);
                    }
                }
            }
            let e = choose|e: int| 0 <= e < poss.len() && #[trigger] poss[e] == m;
            assert(cs[e] == c);
        }
    }
    assert forall|c: u32, i: int|
        (c as int) < eng.wikigraph.num_cats() && #[trigger] capped(
            eng.cat_window_total(c, start_date, end_date),
        ) > 0 && !cs.contains(c) && 0 <= i < cs.len() implies rank_precedes(
        ((#[trigger] cs[i]), results[i].total_views),
        (c, capped(eng.cat_window_total(c, start_date, end_date)) as u64),
    ) by {
        let w = (c, capped(eng.cat_window_total(c, start_date, end_date)) as u64);
        assert(cpairs[c as int] == w);
        assert(cpairs.contains(w));
        assert(sorted.contains(w));
        let m = choose|m: int| 0 <= m < sorted.len() && sorted[m] == w;
        if m < limit {
            let e = choose|e: int| 0 <= e < poss.len() && #[trigger] poss[e] == m;
            assert(cs[e] == c);
            assert(false);
        }
        assert(poss[i] < m);
        assert(rank_precedes(sorted[poss[i]], sorted[m]));
    }
    assert(eng.top_categories_ok(results, start_date, end_date, top_n)) by {
        assert(cs.len() == results.len());
    }
}

/// When the first `limit` slots of the sorted pair list are all positive
/// and each is matched by an emission position, there are at least `limit`
/// emissions.
proof fn lemma_poss_dense_prefix(sorted: Seq<(u32, u64)>, poss: Seq<int>, limit: int)
    requires
        forall|e1: int, e2: int| 0 <= e1 < e2 < poss.len() ==> poss[e1] < poss[e2],
        forall|e: int| 0 <= e < poss.len() ==> 0 <= #[trigger] poss[e] < limit,
        limit <= sorted.len(),
        forall|m: int| 0 <= m < limit ==> (#[trigger] sorted[m]).1 > 0,
        forall|m: int| 0 <= m < limit ==> ((#[trigger] sorted[m]).1 > 0 ==> exists|e: int|
            0 <= e < poss.len() && #[trigger] poss[e] == m),
        limit >= 1,
    ensures
        poss.len() >= limit,
    decreases limit,
{
    // The largest value `limit - 1` is hit by the last entry only.
    assert(sorted[limit - 1].1 > 0);
    let e = choose|e: int| 0 <= e < poss.len() && #[trigger] poss[e] == limit - 1;
    lemma_strict_incr_ge_index(poss);
    assert(poss.len() >= 1);
    assert(e == poss.len() - 1) by {
        if e < poss.len() - 1 {
            assert(poss[e] < poss[poss.len() - 1]);
        }
    }
    if limit > 1 {
        let shorter = poss.drop_last();
        assert forall|m: int|
            0 <= m < limit - 1 && (#[trigger] sorted[m]).1 > 0 implies exists|e2: int|
            0 <= e2 < shorter.len() && #[trigger] shorter[e2] == m by {
            let e2 = choose|e2: int| 0 <= e2 < poss.len() && #[trigger] poss[e2] == m;
            assert(e2 != poss.len() - 1);
            assert(shorter[e2] == m);
        }
        assert forall|e2: int| 0 <= e2 < shorter.len() implies 0 <= #[trigger] shorter[e2] < limit
            - 1 by {
            assert(shorter[e2] == poss[e2]);
            assert(poss[e2] < poss[poss.len() - 1]);
        }
        lemma_poss_dense_prefix(sorted, shorter, limit - 1);
    }
}

impl PageViewEngine {
    /// Computes the top `top_n` categories by direct-membership views over
    /// the window, scores descending (ties by ascending dense id), zero
    /// scores excluded.
    #[verifier::rlimit(100)]
    pub(crate) fn compute_top_categories(&self, start_date: Date, end_date: Date, top_n: usize) -> (r: Vec<
        CategoryRank,
    >)
        requires
            self.wf(),
            start_date.wf(),
            end_date.wf(),
        ensures
            self.top_categories_ok(r@, start_date, end_date, top_n as int),
    {
        let totals = self.all_window_totals(start_date, end_date);
        let (cat_totals, contributors) = self.scatter_totals(
            &totals,
            Ghost(start_date),
            Ghost(end_date),
        );
        let num_cats = self.wikigraph.cat_dense_to_original.len();
        let mut cpairs: Vec<(u32, u64)> = Vec::new();
        let mut c: usize = 0;
        while c < num_cats
            invariant
                num_cats == self.wikigraph.num_cats(),
                num_cats <= u32::MAX,
                cat_totals@.len() == num_cats,
                forall|c2: int|
                    0 <= c2 < num_cats ==> (#[trigger] cat_totals@[c2]) == capped(
                        self.cat_window_total(c2 as u32, start_date, end_date),
                    ),
                c <= num_cats,
                cpairs@.len() == c,
                forall|k: int|
                    0 <= k < c ==> (#[trigger] cpairs@[k]).0 == k as u32 && cpairs@[k].1
                        == capped(self.cat_window_total(k as u32, start_date, end_date)),
            decreases num_cats - c,
        {
            cpairs.push((c as u32, cat_totals[c]));
            c = c + 1;
        }
        let sorted = sort_pairs_desc(&cpairs);
        proof {
            assert(forall|i: int, j: int|
                0 <= i < j < cpairs@.len() ==> (cpairs@[i].0) != (cpairs@[j].0));
        }
        let limit = if top_n < sorted.len() {
            top_n
        } else {
            sorted.len()
        };
        let mut results: Vec<CategoryRank> = Vec::new();
        let ghost mut poss: Seq<int> = Seq::empty();
        let mut k: usize = 0;
        while k < limit
            invariant
                self.wf(),
                start_date.wf(),
                end_date.wf(),
                num_cats == self.wikigraph.num_cats(),
                totals@.len() == self.wikigraph.num_arts(),
                forall|a2: int|
                    0 <= a2 < totals@.len() ==> (#[trigger] totals@[a2]) == window_total_spec(
                        self.daily_views@,
                        a2 as u32,
                        start_date,
                        end_date,
                    ),
                contributors@.len() == num_cats,
                forall|c2: int, e: int|
                    0 <= c2 < contributors@.len() && 0 <= e < contributors@[c2].len() ==> {
                        &&& ((#[trigger] contributors@[c2][e]).0 as int)
                            < self.wikigraph.num_arts()
                        &&& contributors@[c2][e].1 == window_total_spec(
                            self.daily_views@,
                            contributors@[c2][e].0,
                            start_date,
                            end_date,
                        )
                        &&& contributors@[c2][e].1 > 0
                        &&& occurrences(
                            self.wikigraph.article_cats@[contributors@[c2][e].0 as int],
                            c2 as u32,
                        ) > 0
                    },
                forall|c2: int, a2: u32|
                    0 <= c2 < contributors@.len() && (a2 as int) < self.wikigraph.num_arts()
                        && #[trigger] window_total_spec(
                        self.daily_views@,
                        a2,
                        start_date,
                        end_date,
                    ) > 0 && occurrences(self.wikigraph.article_cats@[a2 as int], c2 as u32) > 0
                        ==> (#[trigger] contributors@[c2]@).contains(
                        (
                            a2,
                            window_total_spec(self.daily_views@, a2, start_date, end_date) as u64,
                        ),
                    ),
                cpairs@.len() == num_cats,
                forall|k2: int|
                    0 <= k2 < cpairs@.len() ==> (#[trigger] cpairs@[k2]).0 == k2 as u32
                        && cpairs@[k2].1 == capped(
                        self.cat_window_total(k2 as u32, start_date, end_date),
                    ),
                sorted@.len() == cpairs@.len(),
                forall|w: (u32, u64)| sorted@.contains(w) <==> cpairs@.contains(w),
                forall|i: int, j: int|
                    0 <= i < j < sorted@.len() ==> rank_precedes(sorted@[i], sorted@[j]),
                forall|i: int, j: int|
                    0 <= i < j < sorted@.len() ==> (sorted@[i].0) != (sorted@[j].0),
                limit == (if top_n < sorted@.len() {
                    top_n as int
                } else {
                    sorted@.len() as int
                }),
                k <= limit,
                results@.len() == poss.len(),
                forall|e1: int, e2: int| 0 <= e1 < e2 < poss.len() ==> poss[e1] < poss[e2],
                forall|e: int| 0 <= e < poss.len() ==> 0 <= #[trigger] poss[e] < k,
                forall|m: int|
                    0 <= m < k ==> ((#[trigger] sorted@[m]).1 > 0 <==> exists|e: int|
                        0 <= e < poss.len() && #[trigger] poss[e] == m),
                forall|e: int|
                    0 <= e < results@.len() ==> {
                        &&& ((#[trigger] results@[e]).total_views) == sorted@[poss[e]].1
                        &&& results@[e].total_views > 0
                        &&& (sorted@[poss[e]].0 as int) < self.wikigraph.num_cats()
                        &&& results@[e].category_qid
                            == self.wikigraph.cat_dense_to_original@[sorted@[poss[e]].0 as int]
                        &&& self.cat_article_list_ok(
                            sorted@[poss[e]].0,
                            results@[e].top_articles@,
                            start_date,
                            end_date,
                            top_n as int,
                        )
                    },
            decreases limit - k,
        {
            proof {
                assert(sorted@.contains(sorted@[k as int]));
            }
            let (cd, ct) = sorted[k];
            if ct > 0 {
                proof {
                    let p = choose|p: int|
                        0 <= p < cpairs@.len() && cpairs@[p] == sorted@[k as int];
                    assert(cpairs@[p].0 == p as u32);
                    assert((cd as int) < num_cats);
                    assert(ct == capped(self.cat_window_total(cd, start_date, end_date)));
                }
                let rank = self.build_category_rank(
                    cd,
                    ct,
                    &contributors[cd as usize],
                    top_n,
                    Ghost(start_date),
                    Ghost(end_date),
                );
                let ghost old_poss = poss;
                let ghost old_results = results@;
                results.push(rank);
                proof {
                    poss = poss.push(k as int);
                    assert forall|e: int|
                        0 <= e < results@.len() implies {
                        &&& ((#[trigger] results@[e]).total_views) == sorted@[poss[e]].1
                        &&& results@[e].total_views > 0
                        &&& (sorted@[poss[e]].0 as int) < self.wikigraph.num_cats()
                        &&& results@[e].category_qid
                            == self.wikigraph.cat_dense_to_original@[sorted@[poss[e]].0 as int]
                        &&& self.cat_article_list_ok(
                            sorted@[poss[e]].0,
                            results@[e].top_articles@,
                            start_date,
                            end_date,
                            top_n as int,
                        )
                    } by {
                        if e < old_results.len() {
                            assert(results@[e] == old_results[e]);
                            assert(poss[e] == old_poss[e]);
                        } else {
                            assert(results@[e] == rank);
                            assert(poss[e] == k as int);
                        }
                    }
                    assert forall|m: int| 0 <= m < k + 1 implies ((#[trigger] sorted@[m]).1 > 0
                        <==> exists|e: int|
                        0 <= e < poss.len() && #[trigger] poss[e] == m) by {
                        if m < k {
                            if sorted@[m].1 > 0 {
                                let e = choose|e: int|
                                    0 <= e < old_poss.len() && #[trigger] old_poss[e] == m;
                                assert(poss[e] == m);
                            }
                            if exists|e: int| 0 <= e < poss.len() && #[trigger] poss[e] == m {
                                let e = choose|e: int|
                                    0 <= e < poss.len() && #[trigger] poss[e] == m;
                                assert(e < old_poss.len());
                                assert(old_poss[e] == m);
                            }
                        } else {
                            assert(poss[poss.len() - 1] == m);
                        }
                    }
                }
            } else {
                proof {
                    assert forall|m: int| 0 <= m < k + 1 implies ((#[trigger] sorted@[m]).1 > 0
                        <==> exists|e: int|
                        0 <= e < poss.len() && #[trigger] poss[e] == m) by {
                        if m == k {
                            if exists|e: int| 0 <= e < poss.len() && #[trigger] poss[e] == m {
                                let e = choose|e: int|
                                    0 <= e < poss.len() && #[trigger] poss[e] == m;
                                assert(poss[e] < k);
                            }
                        }
                    }
                }
            }
            k = k + 1;
        }
        proof {
            lemma_top_categories_witness(
                self,
                cpairs@,
                sorted@,
                results@,
                poss,
                limit as int,
                start_date,
                end_date,
                top_n as int,
            );
        }
        results
    }

    /// Returns the top `top_n` categories by direct article views over
    /// `[start_date, end_date]`.  A fresh cached answer for the same window
    /// and limit is returned as is; otherwise the ranking is computed,
    /// cached with a recency-derived TTL (sweeping expired entries when a
    /// sweep is due), and returned.  `now` is the current time in seconds,
    /// `today` the current date.
    pub fn get_top_categories(
        &mut self,
        start_date: Date,
        end_date: Date,
        top_n: usize,
        now: u64,
        today: Date,
    ) -> (r: Vec<CategoryRank>)
        requires
            old(self).wf(),
            start_date.wf(),
            end_date.wf(),
            today.wf(),
        ensures
            final(self).wf(),
            final(self).wikigraph == old(self).wikigraph,
            final(self).daily_views == old(self).daily_views,
            ({
                let key = TopCategoriesCacheKey { start: start_date, end: end_date, top_n };
                if old(self).top_categories_cache.has_fresh(key, now) {
                    &&& ranks_view(r@) == old(self).top_categories_cache.fresh_data(key, now)
                    &&& final(self).top_categories_cache == old(self).top_categories_cache
                } else {
                    &&& old(self).top_categories_ok(r@, start_date, end_date, top_n as int)
                    &&& cache_insert_post(
                        old(self).top_categories_cache,
                        final(self).top_categories_cache,
                        key,
                        ranks_view(r@),
                        now,
                        today,
                    )
                }
            }),
    {
        let key = TopCategoriesCacheKey { start: start_date, end: end_date, top_n };
        if let Some(cached) = self.top_categories_cache.get(&key, now) {
            return cached;
        }
        let results = self.compute_top_categories(start_date, end_date, top_n);
        let copy = clone_ranks(&results);
        self.top_categories_cache.insert(key, copy, now, today);
        results
    }
}

} // verus!

verus! {

/// The summed per-day totals of an article set over a closed window: what a
/// trend query adds up.
#[verifier::opaque]
pub open spec fn masked_window_sum(
    views: Map<u32, Vec<u32>>,
    arts: Set<u32>,
    start: Date,
    end: Date,
) -> int
    decreases end.day_number_spec() - start.day_number_spec()
        when start.wf() && end.wf()
        via masked_window_sum_decreases
{
    let key = date_key_spec(start) as u32;
    let day_total: int = if views.contains_key(key) {
        masked_sum(views[key]@, arts)
    } else {
        0
    };
    if !start.le_spec(end) {
        0
    } else if start == end {
        day_total
    } else {
        day_total + masked_window_sum(views, arts, start.succ_spec(), end)
    }
}

#[via_fn]
proof fn masked_window_sum_decreases(
    views: Map<u32, Vec<u32>>,
    arts: Set<u32>,
    start: Date,
    end: Date,
) {
    if start.le_spec(end) && start != end {
        start.lemma_succ_le(end);
        start.lemma_le_day_number(end);
    }
}

/// Extending the window by one day adds that day's masked total.
proof fn lemma_masked_window_sum_extend(
    views: Map<u32, Vec<u32>>,
    arts: Set<u32>,
    start: Date,
    d: Date,
)
    requires
        start.wf(),
        d.wf(),
        start.le_spec(d),
        d != Date::max_spec(),
    ensures
        d.succ_spec().wf(),
        masked_window_sum(views, arts, start, d.succ_spec()) == masked_window_sum(
            views,
            arts,
            start,
            d,
        ) + ({
            let key = date_key_spec(d.succ_spec()) as u32;
            if views.contains_key(key) {
                masked_sum(views[key]@, arts)
            } else {
                0
            }
        }),
    decreases d.day_number_spec() - start.day_number_spec(),
{
    reveal(masked_window_sum);
    d.lemma_day_number_succ();
    start.lemma_le_day_number(d);
    d.lemma_le_day_number(d.succ_spec());
    start.lemma_le_day_number(d.succ_spec());
    let s = d.succ_spec();
    let skey = date_key_spec(s) as u32;
    let sday: int = if views.contains_key(skey) {
        masked_sum(views[skey]@, arts)
    } else {
        0
    };
    if start == d {
        assert(start.lt_spec(s));
        assert(masked_window_sum(views, arts, s, s) == sday);
        assert(masked_window_sum(views, arts, start, s) == ({
            let key = date_key_spec(start) as u32;
            if views.contains_key(key) {
                masked_sum(views[key]@, arts)
            } else {
                0int
            }
        }) + masked_window_sum(views, arts, s, s));
    } else {
        start.lemma_succ_le(d);
        lemma_masked_window_sum_extend(views, arts, start.succ_spec(), d);
        assert(masked_window_sum(views, arts, start, s) == ({
            let key = date_key_spec(start) as u32;
            if views.contains_key(key) {
                masked_sum(views[key]@, arts)
            } else {
                0int
            }
        }) + masked_window_sum(views, arts, start.succ_spec(), s));
        assert(masked_window_sum(views, arts, start, d) == ({
            let key = date_key_spec(start) as u32;
            if views.contains_key(key) {
                masked_sum(views[key]@, arts)
            } else {
                0int
            }
        }) + masked_window_sum(views, arts, start.succ_spec(), d));
    }
}

impl PageViewEngine {
    /// What a window of per-day totals of an article set sums to, saturated
    /// at `u64::MAX`: the total a caller gets by adding a trend's days up.
    pub open spec fn set_window_sum_spec(
        &self,
        arts: Set<u32>,
        start_date: Date,
        end_date: Date,
    ) -> int {
        capped(masked_window_sum(self.daily_views@, arts, start_date, end_date))
    }

    /// Sums the per-day totals of an enumerated article set over a window,
    /// saturating at `u64::MAX`.
    pub(crate) fn window_set_total(
        &self,
        arts_vec: &Vec<u32>,
        Ghost(arts): Ghost<Set<u32>>,
        start_date: Date,
        end_date: Date,
    ) -> (total: u64)
        requires
            self.wf(),
            start_date.wf(),
            end_date.wf(),
            forall|i: int, j: int| 0 <= i < j < arts_vec@.len() ==> arts_vec@[i] < arts_vec@[j],
            forall|v: u32| arts_vec@.contains(v) <==> arts.contains(v),
            arts_vec@.len() <= u32::MAX,
        ensures
            total == self.set_window_sum_spec(arts, start_date, end_date),
    {
        if !start_date.le(&end_date) {
            proof {
                reveal(masked_window_sum);
            }
            return 0;
        }
        proof {
            start_date.lemma_le_day_number(end_date);
        }
        let n_days: u32 = end_date.day_number() - start_date.day_number();
        let mut total: u64 = 0;
        let mut k: u32 = 0;
        let mut curr = start_date;
        let ghost mut done_until: Date = start_date;
        while k <= n_days
            invariant
                self.wf(),
                start_date.wf(),
                end_date.wf(),
                start_date.le_spec(end_date),
                forall|i: int, j: int| 0 <= i < j < arts_vec@.len() ==> arts_vec@[i] < arts_vec@[j],
                forall|v: u32| arts_vec@.contains(v) <==> arts.contains(v),
                arts_vec@.len() <= u32::MAX,
                n_days == end_date.day_number_spec() - start_date.day_number_spec(),
                k <= n_days + 1,
                k <= n_days ==> curr.wf() && curr.day_number_spec() == start_date.day_number_spec()
                    + k && curr.le_spec(end_date),
                k == 0 ==> curr == start_date && total == 0,
                k > 0 ==> {
                    &&& done_until.wf()
                    &&& done_until.day_number_spec() == start_date.day_number_spec() + k - 1
                    &&& done_until.le_spec(end_date)
                    &&& total == capped(
                        masked_window_sum(self.daily_views@, arts, start_date, done_until),
                    )
                    &&& (k <= n_days ==> curr == done_until.succ_spec())
                },
            decreases n_days + 1 - k,
        {
            let dv: u64 = self.sum_day(curr, arts_vec, Ghost(arts));
            proof {
                if k == 0 {
                    assert(masked_window_sum(self.daily_views@, arts, start_date, start_date)
                        == self.day_total_spec(start_date, arts)) by {
                        reveal(masked_window_sum);
                    }
                } else {
                    start_date.lemma_le_day_number(done_until);
                    done_until.lemma_le_day_number(end_date);
                    lemma_masked_window_sum_extend(
                        self.daily_views@,
                        arts,
                        start_date,
                        done_until,
                    );
                }
            }
            total = total.saturating_add(dv);
            proof {
                done_until = curr;
            }
            if k < n_days {
                proof {
                    curr.lemma_le_day_number(end_date);
                    curr.lemma_succ_le(end_date);
                }
                curr = curr.succ();
            }
            k = k + 1;
        }
        proof {
            start_date.lemma_le_day_number(done_until);
            done_until.lemma_le_day_number(end_date);
            end_date.lemma_le_day_number(done_until);
            assert(done_until == end_date);
        }
        total
    }
}

} // verus!

verus! {

/// Relies on std::time::SystemTime::now and duration_since: seconds since
/// the Unix epoch.  Nothing is promised of the clock's value.
#[verifier::external_body]
fn unix_now_seconds() -> u64 {
    match std::time::SystemTime::now().duration_since(std::time::UNIX_EPOCH) {
        Ok(d) => d.as_secs(),
        Err(_) => 0,
    }
}

/// Relies on chrono::Local::now and NaiveDate's accessors: the local
/// calendar date as plain (year, month, day) values.  Nothing is promised
/// of the values; the caller validates them.
#[verifier::external_body]
fn local_date_parts() -> (r: (i32, u32, u32)) {
    let nd = chrono::Local::now().date_naive();
    (chrono::Datelike::year(&nd), chrono::Datelike::month(&nd), chrono::Datelike::day(&nd))
}

/// The local calendar date, validated; falls back to the Unix epoch date if
/// the clock reports something no calendar holds.
pub fn today_local() -> (r: Date)
    ensures
        r.wf(),
{
    let (y, m, d) = local_date_parts();
    if 1 <= y && y <= 9999 && 1 <= m && m <= 12 && d <= 31 {
        match Date::new(y as u16, m as u8, d as u8) {
            Some(date) => date,
            None => Date { year: 1970, month: 1, day: 1 },
        }
    } else {
        Date { year: 1970, month: 1, day: 1 }
    }
}

/// What `get_top_categories` leaves behind for a particular clock reading.
pub open spec fn top_categories_at(
    old_eng: PageViewEngine,
    new_eng: PageViewEngine,
    r: Seq<CategoryRank>,
    start_date: Date,
    end_date: Date,
    top_n: int,
    now: u64,
    today: Date,
) -> bool {
    let key = TopCategoriesCacheKey { start: start_date, end: end_date, top_n: top_n as usize };
    &&& today.wf()
    &&& if old_eng.top_categories_cache.has_fresh(key, now) {
        &&& ranks_view(r) == old_eng.top_categories_cache.fresh_data(key, now)
        &&& new_eng.top_categories_cache == old_eng.top_categories_cache
    } else {
        &&& old_eng.top_categories_ok(r, start_date, end_date, top_n)
        &&& cache_insert_post(
            old_eng.top_categories_cache,
            new_eng.top_categories_cache,
            key,
            ranks_view(r),
            now,
            today,
        )
    }
}

impl PageViewEngine {
    /// `get_top_categories` against the system clock: reads the current
    /// time and date and serves the query for them.
    pub fn get_top_categories_now(&mut self, start_date: Date, end_date: Date, top_n: usize) -> (r:
        Vec<CategoryRank>)
        requires
            old(self).wf(),
            start_date.wf(),
            end_date.wf(),
        ensures
            final(self).wf(),
            final(self).wikigraph == old(self).wikigraph,
            final(self).daily_views == old(self).daily_views,
            exists|now: u64, today: Date|
                #[trigger] top_categories_at(
                    *old(self),
                    *final(self),
                    r@,
                    start_date,
                    end_date,
                    top_n as int,
                    now,
                    today,
                ),
    {
        let now = unix_now_seconds();
        let today = today_local();
        let r = self.get_top_categories(start_date, end_date, top_n, now, today);
        proof {
            assert(top_categories_at(
                *old(self),
                *self,
                r@,
                start_date,
                end_date,
                top_n as int,
                now,
                today,
            ));
        }
        r
    }
}

} // verus!
