//! The read-only category/article topology.
//!
//! All internal logic runs on dense ids in `[0, N)` per node kind; the public
//! operations are keyed on external QIDs and return external QIDs (dense ids
//! do not leak, except through the deliberately dense-valued article-set
//! query that the page-view engine consumes).  Every walk uses a compressed
//! visited-bitmap, so cyclic hierarchies terminate and expand each node at
//! most once.

use crate::bitmap::bitmap_contains;
use crate::bitmap::bitmap_elems;
use crate::bitmap::bitmap_insert;
use crate::bitmap::bitmap_new;
use crate::bitmap::bitmap_to_vec;
use crate::bitmap::bitmap_union_with;
use crate::csr_adjacency::edges_from;
use crate::csr_adjacency::CsrAdjacency;
use crate::direct_map::DirectMap;
use vstd::prelude::*;

verus! {

/// The categories within `depth` hops of `start` along `children` edges:
/// `start` itself at depth 0, then one neighbor expansion per further hop.
pub open spec fn reach(children: Seq<Seq<u32>>, start: u32, depth: int) -> Set<u32>
    decreases depth,
{
    if depth < 0 {
        Set::empty()
    } else if depth == 0 {
        set![start]
    } else {
        let prev = reach(children, start, depth - 1);
        prev.union(
            Set::new(
                |c: u32|
                    exists|p: u32|
                        prev.contains(p) && p < children.len() && children[p as int].contains(c),
            ),
        )
    }
}

/// The dense id assigned to each external id when dense ids `0, 1, ...` are
/// handed out in source order: the last occurrence of a duplicate wins.
pub open spec fn qid_index_map(qids: Seq<u32>) -> Map<u32, u32>
    decreases qids.len(),
{
    if qids.len() == 0 {
        Map::empty()
    } else {
        qid_index_map(qids.drop_last()).insert(qids.last(), (qids.len() - 1) as u32)
    }
}

/// External-id pairs translated to dense-id pairs; a pair with an unknown
/// side is silently dropped.
pub open spec fn resolve_pairs(
    pairs: Seq<(u32, u32)>,
    m_src: Map<u32, u32>,
    m_dst: Map<u32, u32>,
) -> Seq<(u32, u32)>
    decreases pairs.len(),
{
    if pairs.len() == 0 {
        Seq::empty()
    } else {
        let rest = resolve_pairs(pairs.drop_last(), m_src, m_dst);
        let p = pairs.last();
        if m_src.contains_key(p.0) && m_dst.contains_key(p.1) {
            rest.push((m_src[p.0], m_dst[p.1]))
        } else {
            rest
        }
    }
}

/// Each pair reversed, turning parent->child edges into child->parent edges.
pub open spec fn swap_pairs(pairs: Seq<(u32, u32)>) -> Seq<(u32, u32)> {
    Seq::new(pairs.len(), |i: int| (pairs[i].1, pairs[i].0))
}

/// Growing the hop budget never loses a category.
pub proof fn lemma_reach_monotone(children: Seq<Seq<u32>>, start: u32, d1: int, d2: int)
    requires
        d1 <= d2,
    ensures
        reach(children, start, d1).subset_of(reach(children, start, d2)),
    decreases d2 - d1,
{
    if d1 < d2 {
        lemma_reach_monotone(children, start, d1, d2 - 1);
        if d2 > 0 {
            assert(reach(children, start, d2 - 1).subset_of(reach(children, start, d2)));
        } else {
            // d1 < d2 <= 0: both sides unfold to the d2 case directly.
            assert(d1 < 0);
        }
    }
}

/// Every reached category is a valid dense id, provided the start is and all
/// edge targets are.
pub proof fn lemma_reach_bound(children: Seq<Seq<u32>>, start: u32, depth: int, n: int)
    requires
        start < n,
        forall|p: int, j: int|
            0 <= p < children.len() && 0 <= j < children[p].len() ==> children[p][j] < n,
    ensures
        forall|c: u32| reach(children, start, depth).contains(c) ==> c < n,
    decreases depth,
{
    if depth > 0 {
        lemma_reach_bound(children, start, depth - 1, n);
        assert forall|c: u32| reach(children, start, depth).contains(c) implies c < n by {
            let prev = reach(children, start, depth - 1);
            if !prev.contains(c) {
                let p = choose|p: u32|
                    prev.contains(p) && p < children.len() && children[p as int].contains(c);
                let j = choose|j: int|
                    0 <= j < children[p as int].len() && children[p as int][j] == c;
                assert(children[p as int][j] < n);
            }
        }
    }
}

/// A category first reached at depth `level + 1` has an edge from one first
/// reached at depth `level` exactly: breadth-first layers expand only from
/// the newest layer.
pub proof fn lemma_reach_new_from_frontier(
    children: Seq<Seq<u32>>,
    start: u32,
    level: int,
    c: u32,
)
    requires
        level >= 0,
        reach(children, start, level + 1).contains(c),
        !reach(children, start, level).contains(c),
    ensures
        exists|p: u32|
            reach(children, start, level).contains(p) && !reach(
                children,
                start,
                level - 1,
            ).contains(p) && p < children.len() && children[p as int].contains(c),
{
    let prev = reach(children, start, level);
    let p = choose|p: u32| prev.contains(p) && p < children.len() && children[p as int].contains(c);
    if reach(children, start, level - 1).contains(p) {
        // Then c would already be within `level` hops.
        assert(level >= 1);
        assert(reach(children, start, level).contains(c));
        assert(false);
    }
}

/// `qid_index_map` is exactly "last index of each id that occurs".
pub proof fn lemma_qid_index_map(qids: Seq<u32>, q: u32)
    requires
        qids.len() <= u32::MAX,
    ensures
        qid_index_map(qids).contains_key(q) <==> qids.contains(q),
        qid_index_map(qids).contains_key(q) ==> {
            &&& qid_index_map(qids)[q] < qids.len()
            &&& qids[qid_index_map(qids)[q] as int] == q
        },
    decreases qids.len(),
{
    if qids.len() > 0 {
        lemma_qid_index_map(qids.drop_last(), q);
        if qids.contains(q) && qids.last() != q {
            let j = choose|j: int| 0 <= j < qids.len() && qids[j] == q;
            assert(qids.drop_last()[j] == q);
        }
        if qid_index_map(qids.drop_last()).contains_key(q) {
            let j = qid_index_map(qids.drop_last())[q];
            assert(qids[j as int] == qids.drop_last()[j as int]);
        }
    }
}

/// Resolved pairs take their components from the maps' values.
pub proof fn lemma_resolve_pairs_bound(
    pairs: Seq<(u32, u32)>,
    m_src: Map<u32, u32>,
    m_dst: Map<u32, u32>,
    n_src: int,
    n_dst: int,
)
    requires
        forall|q: u32| m_src.contains_key(q) ==> m_src[q] < n_src,
        forall|q: u32| m_dst.contains_key(q) ==> m_dst[q] < n_dst,
    ensures
        forall|k: int|
            0 <= k < resolve_pairs(pairs, m_src, m_dst).len() ==> (#[trigger] resolve_pairs(
                pairs,
                m_src,
                m_dst,
            )[k]).0 < n_src && resolve_pairs(pairs, m_src, m_dst)[k].1 < n_dst,
    decreases pairs.len(),
{
    let resolved = resolve_pairs(pairs, m_src, m_dst);
    if pairs.len() > 0 {
        lemma_resolve_pairs_bound(pairs.drop_last(), m_src, m_dst, n_src, n_dst);
        let rest = resolve_pairs(pairs.drop_last(), m_src, m_dst);
        assert forall|k: int| 0 <= k < resolved.len() implies (resolved[k]).0 < n_src
            && resolved[k].1 < n_dst by {
            if k < rest.len() {
                assert(resolved[k] == rest[k]);
            }
        }
    }
}

/// A dense pair stands among the resolved pairs exactly when some external
/// pair with both sides known resolves to it.
pub proof fn lemma_resolve_pairs_contains(
    pairs: Seq<(u32, u32)>,
    m_src: Map<u32, u32>,
    m_dst: Map<u32, u32>,
    x: u32,
    y: u32,
)
    ensures
        resolve_pairs(pairs, m_src, m_dst).contains((x, y)) <==> exists|k: int|
            0 <= k < pairs.len() && m_src.contains_key((#[trigger] pairs[k]).0)
                && m_dst.contains_key(pairs[k].1) && m_src[pairs[k].0] == x && m_dst[pairs[k].1]
                == y,
    decreases pairs.len(),
{
    let resolved = resolve_pairs(pairs, m_src, m_dst);
    if pairs.len() > 0 {
        lemma_resolve_pairs_contains(pairs.drop_last(), m_src, m_dst, x, y);
        let rest = resolve_pairs(pairs.drop_last(), m_src, m_dst);
        let p = pairs.last();
        if resolved.contains((x, y)) {
            let j = choose|j: int| 0 <= j < resolved.len() && resolved[j] == (x, y);
            if j < rest.len() {
                assert(rest.contains((x, y)));
                let k = choose|k: int|
                    0 <= k < pairs.drop_last().len() && m_src.contains_key(
                        (#[trigger] pairs.drop_last()[k]).0,
                    ) && m_dst.contains_key(pairs.drop_last()[k].1) && m_src[pairs.drop_last()[k].0]
                        == x && m_dst[pairs.drop_last()[k].1] == y;
                assert(pairs[k] == pairs.drop_last()[k]);
            } else {
                assert(pairs[pairs.len() - 1] == p);
            }
        }
        if exists|k: int|
            0 <= k < pairs.len() && m_src.contains_key((#[trigger] pairs[k]).0)
                && m_dst.contains_key(pairs[k].1) && m_src[pairs[k].0] == x && m_dst[pairs[k].1]
                == y {
            let k = choose|k: int|
                0 <= k < pairs.len() && m_src.contains_key((#[trigger] pairs[k]).0)
                    && m_dst.contains_key(pairs[k].1) && m_src[pairs[k].0] == x && m_dst[pairs[k].1]
                    == y;
            if k < pairs.len() - 1 {
                assert(pairs.drop_last()[k] == pairs[k]);
                assert(rest.contains((x, y)));
                let j = choose|j: int| 0 <= j < rest.len() && rest[j] == (x, y);
                assert(resolved[j] == (x, y));
            } else {
                assert(resolved.last() == (x, y));
            }
        }
    }
}

/// The core high-performance graph structure.
/// All internal logic uses dense ids `0 .. N`, not the raw external QIDs.
pub struct WikiGraph {
    pub children: CsrAdjacency,
    pub parents: CsrAdjacency,
    pub cat_articles: Vec<roaring::RoaringBitmap>,
    pub article_cats: CsrAdjacency,
    /// Dense category id -> QID.
    pub cat_dense_to_original: Vec<u32>,
    /// QID -> dense category id.
    pub cat_original_to_dense: DirectMap,
    pub art_dense_to_original: Vec<u32>,
    pub art_original_to_dense: DirectMap,
}

impl WikiGraph {
    pub open spec fn num_cats(&self) -> int {
        self.cat_dense_to_original@.len() as int
    }

    pub open spec fn num_arts(&self) -> int {
        self.art_dense_to_original@.len() as int
    }

    /// Everything the queries lean on: the adjacency structures are sound,
    /// sized to the node counts, all stored dense ids are in range, and the
    /// two id directions agree.
    pub open spec fn wf(&self) -> bool {
        &&& self.children.wf()
        &&& self.parents.wf()
        &&& self.article_cats.wf()
        &&& self.cat_original_to_dense.wf()
        &&& self.art_original_to_dense.wf()
        &&& self.children@.len() == self.num_cats()
        &&& self.parents@.len() == self.num_cats()
        &&& self.cat_articles@.len() == self.num_cats()
        &&& self.article_cats@.len() == self.num_arts()
        &&& self.num_cats() <= u32::MAX
        &&& self.num_arts() <= u32::MAX
        &&& forall|p: int, j: int|
            0 <= p < self.children@.len() && 0 <= j < self.children@[p].len()
                ==> self.children@[p][j] < self.num_cats()
        &&& forall|p: int, j: int|
            0 <= p < self.parents@.len() && 0 <= j < self.parents@[p].len()
                ==> self.parents@[p][j] < self.num_cats()
        &&& forall|a: int, j: int|
            0 <= a < self.article_cats@.len() && 0 <= j < self.article_cats@[a].len()
                ==> self.article_cats@[a][j] < self.num_cats()
        &&& forall|c: int, x: u32|
            0 <= c < self.cat_articles@.len() && #[trigger] bitmap_elems(
                self.cat_articles@[c],
            ).contains(x) ==> x < self.num_arts()
        &&& forall|q: u32|
            #[trigger] self.cat_original_to_dense@.contains_key(q)
                ==> self.cat_original_to_dense@[q] < self.num_cats()
                && self.cat_dense_to_original@[self.cat_original_to_dense@[q] as int] == q
        &&& forall|q: u32|
            #[trigger] self.art_original_to_dense@.contains_key(q)
                ==> self.art_original_to_dense@[q] < self.num_arts()
                && self.art_dense_to_original@[self.art_original_to_dense@[q] as int] == q
    }

    /// What the graph builder guarantees: the graph is exactly the one the
    /// four input tables describe.
    pub open spec fn built_from(
        &self,
        cats: Seq<u32>,
        arts: Seq<u32>,
        cat_pairs: Seq<(u32, u32)>,
        art_pairs: Seq<(u32, u32)>,
    ) -> bool {
        let cmap = qid_index_map(cats);
        let amap = qid_index_map(arts);
        let hier = resolve_pairs(cat_pairs, cmap, cmap);
        let membership = resolve_pairs(art_pairs, amap, cmap);
        &&& self.cat_dense_to_original@ == cats
        &&& self.art_dense_to_original@ == arts
        &&& self.cat_original_to_dense@ == cmap
        &&& self.art_original_to_dense@ == amap
        &&& forall|s: int| 0 <= s < self.num_cats() ==> self.children@[s] == edges_from(hier, s)
        &&& forall|s: int|
            0 <= s < self.num_cats() ==> self.parents@[s] == edges_from(swap_pairs(hier), s)
        &&& forall|a: int|
            0 <= a < self.num_arts() ==> self.article_cats@[a] == edges_from(membership, a)
        &&& forall|c: u32|
            c < self.num_cats() ==> bitmap_elems(self.cat_articles@[c as int]) == Set::new(
                |a: u32| membership.contains((a, c)),
            )
    }

    /// The dense article ids reachable by unioning the article bitmaps of
    /// every category within `depth` hops of `start`.
    pub open spec fn articles_dense_within(&self, start: u32, depth: int) -> Set<u32> {
        Set::new(
            |a: u32|
                exists|c: u32|
                    reach(self.children@, start, depth).contains(c) && c < self.cat_articles@.len()
                        && bitmap_elems(#[trigger] self.cat_articles@[c as int]).contains(a),
        )
    }

    /// The answer of the membership query for an external category id:
    /// an unknown id yields the empty set.
    pub open spec fn articles_in_category_spec(&self, category_qid: u32, depth: int) -> Set<u32> {
        if self.cat_original_to_dense@.contains_key(category_qid) {
            self.articles_dense_within(self.cat_original_to_dense@[category_qid], depth)
        } else {
            Set::empty()
        }
    }

    /// Level-synchronous breadth-first walk of the `children` hierarchy from
    /// a dense start id.  Returns each visited category exactly once, paired
    /// with its discovery depth (the shortest hop distance from the start).
    /// The visited-set makes cyclic hierarchies safe: a category is expanded
    /// at most once per query.
    fn bfs_categories(&self, start: u32, max_depth: u8) -> (r: Vec<(u32, u8)>)
        requires
            self.wf(),
            start < self.num_cats(),
        ensures
            r@.len() >= 1,
            r@[0] == (start, 0u8),
            forall|i: int, j: int| 0 <= i < j < r@.len() ==> (r@[i].0) != (r@[j].0),
            forall|i: int| 0 <= i < r@.len() ==> (r@[i].0 as int) < self.num_cats(),
            forall|i: int| 0 <= i < r@.len() ==> (r@[i].1) <= max_depth,
            forall|i: int|
                0 <= i < r@.len() ==> reach(self.children@, start, r@[i].1 as int).contains(
                    r@[i].0,
                ) && !reach(self.children@, start, r@[i].1 as int - 1).contains(r@[i].0),
            forall|n: u32|
                reach(self.children@, start, max_depth as int).contains(n) ==> exists|i: int|
                    0 <= i < r@.len() && (#[trigger] r@[i]).0 == n,
    {
        let ghost ch = self.children@;
        let mut r: Vec<(u32, u8)> = Vec::new();
        r.push((start, 0));
        let mut visited = bitmap_new();
        bitmap_insert(&mut visited, start);
        let mut frontier: Vec<u32> = Vec::new();
        frontier.push(start);
        let mut level: u8 = 0;
        proof {
            assert(bitmap_elems(visited) =~= reach(ch, start, 0));
            assert(frontier@[0] == start);
            assert forall|n: u32| #[trigger] reach(ch, start, 0).contains(n) && !reach(
                ch,
                start,
                -1,
            ).contains(n) implies frontier@.contains(n) by {
                assert(n == start);
                assert(frontier@[0] == n);
            }
            assert forall|n: u32| bitmap_elems(visited).contains(n) implies exists|i: int|
                0 <= i < r@.len() && (#[trigger] r@[i]).0 == n by {
                assert(r@[0].0 == n);
            }
        }
        while level < max_depth
            invariant
                self.wf(),
                ch == self.children@,
                start < self.num_cats(),
                level <= max_depth,
                bitmap_elems(visited) == reach(ch, start, level as int),
                forall|k: int|
                    0 <= k < frontier@.len() ==> reach(ch, start, level as int).contains(
                        #[trigger] frontier@[k],
                    ) && !reach(ch, start, level as int - 1).contains(frontier@[k]),
                forall|k1: int, k2: int|
                    0 <= k1 < k2 < frontier@.len() ==> frontier@[k1] != frontier@[k2],
                forall|k: int| 0 <= k < frontier@.len() ==> (frontier@[k] as int) < self.num_cats(),
                forall|n: u32|
                    #[trigger] reach(ch, start, level as int).contains(n) && !reach(
                        ch,
                        start,
                        level as int - 1,
                    ).contains(n) ==> frontier@.contains(n),
                r@.len() >= 1,
                r@[0] == (start, 0u8),
                forall|i: int, j: int| 0 <= i < j < r@.len() ==> (r@[i].0) != (r@[j].0),
                forall|i: int| 0 <= i < r@.len() ==> (r@[i].0 as int) < self.num_cats(),
                forall|i: int| 0 <= i < r@.len() ==> (r@[i].1) <= level,
                forall|i: int|
                    0 <= i < r@.len() ==> reach(ch, start, r@[i].1 as int).contains(r@[i].0)
                        && !reach(ch, start, r@[i].1 as int - 1).contains(r@[i].0),
                forall|n: u32|
                    bitmap_elems(visited).contains(n) ==> exists|i: int|
                        0 <= i < r@.len() && (#[trigger] r@[i]).0 == n,
                forall|i: int| 0 <= i < r@.len() ==> bitmap_elems(visited).contains(r@[i].0),
            decreases max_depth - level,
        {
            let mut next: Vec<u32> = Vec::new();
            let n_frontier = frontier.len();
            let mut fi: usize = 0;
            while fi < n_frontier
                invariant
                    self.wf(),
                    ch == self.children@,
                    start < self.num_cats(),
                    level < max_depth,
                    n_frontier == frontier@.len(),
                    fi <= n_frontier,
                    forall|k: int|
                        0 <= k < frontier@.len() ==> reach(ch, start, level as int).contains(
                            #[trigger] frontier@[k],
                        ) && !reach(ch, start, level as int - 1).contains(frontier@[k]),
                    forall|k: int|
                        0 <= k < frontier@.len() ==> (frontier@[k] as int) < self.num_cats(),
                    forall|n: u32|
                        #[trigger] reach(ch, start, level as int).contains(n) && !reach(
                            ch,
                            start,
                            level as int - 1,
                        ).contains(n) ==> frontier@.contains(n),
                    forall|n: u32|
                        bitmap_elems(visited).contains(n) <==> (reach(
                            ch,
                            start,
                            level as int,
                        ).contains(n) || next@.contains(n)),
                    forall|k: int|
                        0 <= k < next@.len() ==> reach(ch, start, level as int + 1).contains(
                            #[trigger] next@[k],
                        ) && !reach(ch, start, level as int).contains(next@[k]),
                    forall|k1: int, k2: int|
                        0 <= k1 < k2 < next@.len() ==> next@[k1] != next@[k2],
                    forall|k: int| 0 <= k < next@.len() ==> (next@[k] as int) < self.num_cats(),
                    forall|k: int, j: int|
                        0 <= k < fi && 0 <= j < ch[frontier@[k] as int].len() ==> bitmap_elems(
                            visited,
                        ).contains(#[trigger] ch[frontier@[k] as int][j]),
                    r@.len() >= 1,
                    r@[0] == (start, 0u8),
                    forall|i: int, j: int| 0 <= i < j < r@.len() ==> (r@[i].0) != (r@[j].0),
                    forall|i: int| 0 <= i < r@.len() ==> (r@[i].0 as int) < self.num_cats(),
                    forall|i: int| 0 <= i < r@.len() ==> (r@[i].1) <= level + 1,
                    forall|i: int|
                        0 <= i < r@.len() ==> reach(ch, start, r@[i].1 as int).contains(r@[i].0)
                            && !reach(ch, start, r@[i].1 as int - 1).contains(r@[i].0),
                    forall|n: u32|
                        bitmap_elems(visited).contains(n) ==> exists|i: int|
                            0 <= i < r@.len() && (#[trigger] r@[i]).0 == n,
                    forall|i: int| 0 <= i < r@.len() ==> bitmap_elems(visited).contains(r@[i].0),
                decreases n_frontier - fi,
            {
                let node = frontier[fi];
                let neighbors = self.children.get(node);
                let n_neighbors = neighbors.len();
                let mut ni: usize = 0;
                while ni < n_neighbors
                    invariant
                        self.wf(),
                        ch == self.children@,
                        start < self.num_cats(),
                        level < max_depth,
                        n_frontier == frontier@.len(),
                        fi < n_frontier,
                        node == frontier@[fi as int],
                        neighbors@ == ch[node as int],
                        n_neighbors == neighbors@.len(),
                        ni <= n_neighbors,
                        forall|k: int|
                            0 <= k < frontier@.len() ==> reach(ch, start, level as int).contains(
                                #[trigger] frontier@[k],
                            ) && !reach(ch, start, level as int - 1).contains(frontier@[k]),
                        forall|k: int|
                            0 <= k < frontier@.len() ==> (frontier@[k] as int) < self.num_cats(),
                        forall|n: u32|
                            #[trigger] reach(ch, start, level as int).contains(n) && !reach(
                                ch,
                                start,
                                level as int - 1,
                            ).contains(n) ==> frontier@.contains(n),
                        forall|n: u32|
                            bitmap_elems(visited).contains(n) <==> (reach(
                                ch,
                                start,
                                level as int,
                            ).contains(n) || next@.contains(n)),
                        forall|k: int|
                            0 <= k < next@.len() ==> reach(ch, start, level as int + 1).contains(
                                #[trigger] next@[k],
                            ) && !reach(ch, start, level as int).contains(next@[k]),
                        forall|k1: int, k2: int|
                            0 <= k1 < k2 < next@.len() ==> next@[k1] != next@[k2],
                        forall|k: int| 0 <= k < next@.len() ==> (next@[k] as int) < self.num_cats(),
                        forall|k: int, j: int|
                            0 <= k < fi && 0 <= j < ch[frontier@[k] as int].len() ==> bitmap_elems(
                                visited,
                            ).contains(#[trigger] ch[frontier@[k] as int][j]),
                        forall|j: int|
                            0 <= j < ni ==> bitmap_elems(visited).contains(
                                #[trigger] ch[node as int][j],
                            ),
                        r@.len() >= 1,
                        r@[0] == (start, 0u8),
                        forall|i: int, j: int| 0 <= i < j < r@.len() ==> (r@[i].0) != (r@[j].0),
                        forall|i: int| 0 <= i < r@.len() ==> (r@[i].0 as int) < self.num_cats(),
                        forall|i: int| 0 <= i < r@.len() ==> (r@[i].1) <= level + 1,
                        forall|i: int|
                            0 <= i < r@.len() ==> reach(ch, start, r@[i].1 as int).contains(
                                r@[i].0,
                            ) && !reach(ch, start, r@[i].1 as int - 1).contains(r@[i].0),
                        forall|n: u32|
                            bitmap_elems(visited).contains(n) ==> exists|i: int|
                                0 <= i < r@.len() && (#[trigger] r@[i]).0 == n,
                        forall|i: int|
                            0 <= i < r@.len() ==> bitmap_elems(visited).contains(r@[i].0),
                    decreases n_neighbors - ni,
                {
                    let child = neighbors[ni];
                    if !bitmap_contains(&visited, child) {
                        proof {
                            // The child is one hop past a node of the current
                            // layer, so it lies in the next layer.
                            assert(reach(ch, start, level as int).contains(node));
                            assert(reach(ch, start, level as int + 1).contains(child)) by {
                                assert(ch[node as int].contains(child));
                            }
                        }
                        let ghost old_r = r@;
                        let ghost old_vis = bitmap_elems(visited);
                        let ghost old_next = next@;
                        bitmap_insert(&mut visited, child);
                        next.push(child);
                        r.push((child, level + 1));
                        proof {
                            assert(next@[next@.len() - 1] == child);
                            assert forall|n: u32| bitmap_elems(visited).contains(n) implies (reach(
                                ch,
                                start,
                                level as int,
                            ).contains(n) || next@.contains(n)) by {
                                if n == child {
                                    assert(next@[next@.len() - 1] == n);
                                } else {
                                    assert(old_vis.contains(n));
                                    if old_next.contains(n) {
                                        let k = choose|k: int|
                                            0 <= k < old_next.len() && old_next[k] == n;
                                        assert(next@[k] == n);
                                    }
                                }
                            }
                            assert forall|n: u32| (reach(ch, start, level as int).contains(n)
                                || next@.contains(n)) implies bitmap_elems(visited).contains(
                                n,
                            ) by {
                                if next@.contains(n) {
                                    let k = choose|k: int|
                                        0 <= k < next@.len() && next@[k] == n;
                                    if k < old_next.len() {
                                        assert(old_next[k] == n);
                                        assert(old_vis.contains(n));
                                    }
                                }
                            }
                            assert forall|k1: int, k2: int|
                                0 <= k1 < k2 < next@.len() implies next@[k1] != next@[k2] by {
                                if k2 == next@.len() - 1 {
                                    assert(old_next[k1] == next@[k1]);
                                    assert(old_next.contains(next@[k1]));
                                    assert(old_vis.contains(next@[k1]));
                                }
                            }
                            assert forall|n: u32| bitmap_elems(visited).contains(n) implies exists|
                                i: int,
                            |
                                0 <= i < r@.len() && (#[trigger] r@[i]).0 == n by {
                                if n == child {
                                    assert(r@[r@.len() - 1].0 == n);
                                } else {
                                    assert(old_vis.contains(n));
                                    let i = choose|i: int|
                                        0 <= i < old_r.len() && (#[trigger] old_r[i]).0 == n;
                                    assert(r@[i].0 == n);
                                }
                            }
                        }
                    }
                    ni = ni + 1;
                }
                fi = fi + 1;
            }
            proof {
                lemma_reach_monotone(ch, start, level as int, level as int + 1);
                assert forall|c: u32| reach(ch, start, level as int + 1).contains(
                    c,
                ) implies bitmap_elems(visited).contains(c) by {
                    if !reach(ch, start, level as int).contains(c) {
                        lemma_reach_new_from_frontier(ch, start, level as int, c);
                        let p = choose|p: u32|
                            reach(ch, start, level as int).contains(p) && !reach(
                                ch,
                                start,
                                level as int - 1,
                            ).contains(p) && p < ch.len() && ch[p as int].contains(c);
                        assert(frontier@.contains(p));
                        let k = choose|k: int| 0 <= k < frontier@.len() && frontier@[k] == p;
                        let j = choose|j: int| 0 <= j < ch[p as int].len() && ch[p as int][j] == c;
                        assert(bitmap_elems(visited).contains(ch[frontier@[k] as int][j]));
                    }
                }
                assert(bitmap_elems(visited) =~= reach(ch, start, level as int + 1));
            }
            frontier = next;
            level = level + 1;
        }
        r
    }

    /// The external ids of a set of dense article ids.
    pub open spec fn qids_of_articles(&self, dense: Set<u32>) -> Set<u32> {
        Set::new(
            |q: u32|
                exists|a: u32|
                    dense.contains(a) && a < self.num_arts()
                        && self.art_dense_to_original@[a as int] == q,
        )
    }

    /// Get all subcategories up to `max_depth` hops, as `(QID, depth)` pairs,
    /// where depth is the shortest hop distance from the start; the start
    /// itself is excluded.  Cycles are tolerated: each category is reported
    /// at most once (the witness below lists the distinct dense ids behind
    /// the reported QIDs).  An unknown start yields the empty list.
    pub fn get_descendant_categories(&self, category_qid: u32, max_depth: u8) -> (r: Result<
        Vec<(u32, u8)>,
        String,
    >)
        requires
            self.wf(),
        ensures
            r is Ok,
            match r {
                Ok(v) => {
                    if self.cat_original_to_dense@.contains_key(category_qid) {
                        let start = self.cat_original_to_dense@[category_qid];
                        exists|dense: Seq<u32>|
                            {
                                &&& (#[trigger] dense.len()) == v@.len()
                                &&& forall|i: int, j: int|
                                    0 <= i < j < dense.len() ==> dense[i] != dense[j]
                                &&& forall|i: int|
                                    0 <= i < dense.len() ==> (#[trigger] dense[i]) != start && (
                                    dense[i] as int) < self.num_cats() && v@[i].0
                                        == self.cat_dense_to_original@[dense[i] as int] && v@[i].1
                                        <= max_depth && reach(
                                        self.children@,
                                        start,
                                        v@[i].1 as int,
                                    ).contains(dense[i]) && !reach(
                                        self.children@,
                                        start,
                                        v@[i].1 as int - 1,
                                    ).contains(dense[i])
                                &&& forall|n: u32|
                                    reach(self.children@, start, max_depth as int).contains(n) && n
                                        != start ==> dense.contains(n)
                            }
                    } else {
                        v@.len() == 0
                    }
                },
                Err(_) => false,
            },
    {
        let start_node = match self.cat_original_to_dense.get(category_qid) {
            Some(id) => id,
            None => {
                return Ok(Vec::new());
            },
        };
        let b = self.bfs_categories(start_node, max_depth);
        let mut v: Vec<(u32, u8)> = Vec::new();
        let mut i: usize = 1;
        while i < b.len()
            invariant
                self.wf(),
                b@.len() >= 1,
                b@[0] == (start_node, 0u8),
                forall|k: int| 0 <= k < b@.len() ==> (b@[k].0 as int) < self.num_cats(),
                1 <= i <= b@.len(),
                v@.len() == i - 1,
                forall|k: int|
                    0 <= k < v@.len() ==> v@[k] == (
                        self.cat_dense_to_original@[b@[k + 1].0 as int],
                        b@[k + 1].1,
                    ),
            decreases b@.len() - i,
        {
            let (dense_id, depth) = b[i];
            v.push((self.cat_dense_to_original[dense_id as usize], depth));
            i = i + 1;
        }
        proof {
            let bs = b@;
            let w = Seq::new(v@.len(), |k: int| bs[k + 1].0);
            assert forall|n: u32|
                reach(self.children@, start_node, max_depth as int).contains(n) && n
                    != start_node implies w.contains(n) by {
                let k = choose|k: int| 0 <= k < bs.len() && (#[trigger] bs[k]).0 == n;
                assert(k != 0);
                assert(w[k - 1] == n);
            }
            assert forall|k: int| 0 <= k < w.len() implies (#[trigger] w[k]) != start_node by {
                assert(bs[k + 1].0 != bs[0].0);
            }
        }
        Ok(v)
    }

    /// Find all articles in a category (and subcategories to `max_depth`),
    /// as a bitmap of dense article ids; callers translate.  An unknown
    /// category yields the empty bitmap.
    pub fn get_articles_in_category_as_dense(&self, category_qid: u32, max_depth: u8) -> (r:
        roaring::RoaringBitmap)
        requires
            self.wf(),
        ensures
            bitmap_elems(r) == self.articles_in_category_spec(category_qid, max_depth as int),
    {
        let start_node = match self.cat_original_to_dense.get(category_qid) {
            Some(id) => id,
            None => {
                let r = bitmap_new();
                proof {
                    assert(bitmap_elems(r) =~= self.articles_in_category_spec(
                        category_qid,
                        max_depth as int,
                    ));
                }
                return r;
            },
        };
        let b = self.bfs_categories(start_node, max_depth);
        let mut acc = bitmap_new();
        let mut k: usize = 0;
        while k < b.len()
            invariant
                self.wf(),
                start_node < self.num_cats(),
                forall|i: int| 0 <= i < b@.len() ==> (b@[i].0 as int) < self.num_cats(),
                forall|i: int| 0 <= i < b@.len() ==> (b@[i].1) <= max_depth,
                forall|i: int|
                    0 <= i < b@.len() ==> reach(self.children@, start_node, b@[i].1 as int).contains(
                        b@[i].0,
                    ),
                forall|n: u32|
                    reach(self.children@, start_node, max_depth as int).contains(n) ==> exists|
                        i: int,
                    | 0 <= i < b@.len() && (#[trigger] b@[i]).0 == n,
                k <= b@.len(),
                forall|a: u32|
                    bitmap_elems(acc).contains(a) <==> exists|i: int|
                        0 <= i < k && bitmap_elems(
                            self.cat_articles@[(#[trigger] b@[i]).0 as int],
                        ).contains(a),
            decreases b@.len() - k,
        {
            let node = b[k].0;
            let ghost old_acc = bitmap_elems(acc);
            bitmap_union_with(&mut acc, &self.cat_articles[node as usize]);
            proof {
                assert forall|a: u32| bitmap_elems(acc).contains(a) implies exists|i: int|
                    0 <= i < k + 1 && bitmap_elems(
                        self.cat_articles@[(#[trigger] b@[i]).0 as int],
                    ).contains(a) by {
                    if old_acc.contains(a) {
                        let i = choose|i: int|
                            0 <= i < k && bitmap_elems(
                                self.cat_articles@[(#[trigger] b@[i]).0 as int],
                            ).contains(a);
                        assert(bitmap_elems(self.cat_articles@[b@[i].0 as int]).contains(a));
                    } else {
                        assert(bitmap_elems(self.cat_articles@[b@[k as int].0 as int]).contains(
                            a,
                        ));
                    }
                }
            }
            k = k + 1;
        }
        proof {
            let spec_set = self.articles_dense_within(start_node, max_depth as int);
            assert forall|a: u32| bitmap_elems(acc).contains(a) implies spec_set.contains(a) by {
                let i = choose|i: int|
                    0 <= i < b@.len() && bitmap_elems(
                        self.cat_articles@[(#[trigger] b@[i]).0 as int],
                    ).contains(a);
                lemma_reach_monotone(self.children@, start_node, b@[i].1 as int, max_depth as int);
                assert(reach(self.children@, start_node, max_depth as int).contains(b@[i].0));
            }
            assert forall|a: u32| spec_set.contains(a) implies bitmap_elems(acc).contains(a) by {
                let c = choose|c: u32|
                    reach(self.children@, start_node, max_depth as int).contains(c) && c
                        < self.cat_articles@.len() && bitmap_elems(
                        #[trigger] self.cat_articles@[c as int],
                    ).contains(a);
                let i = choose|i: int| 0 <= i < b@.len() && (#[trigger] b@[i]).0 == c;
                assert(bitmap_elems(self.cat_articles@[b@[i].0 as int]).contains(a));
            }
            assert(bitmap_elems(acc) =~= spec_set);
        }
        acc
    }

    /// Find all articles in a category (and subcategories to `max_depth`),
    /// as a bitmap of external article QIDs.
    pub fn get_articles_in_category(&self, category_qid: u32, max_depth: u8) -> (r: Result<
        roaring::RoaringBitmap,
        String,
    >)
        requires
            self.wf(),
        ensures
            r is Ok,
            match r {
                Ok(bm) => bitmap_elems(bm) == self.qids_of_articles(
                    self.articles_in_category_spec(category_qid, max_depth as int),
                ),
                Err(_) => false,
            },
    {
        let dense_bm = self.get_articles_in_category_as_dense(category_qid, max_depth);
        let ghost dense_set = self.articles_in_category_spec(category_qid, max_depth as int);
        proof {
            assert forall|a: u32| dense_set.contains(a) implies (a as int) < self.num_arts() by {
                if self.cat_original_to_dense@.contains_key(category_qid) {
                    let start = self.cat_original_to_dense@[category_qid];
                    let c = choose|c: u32|
                        reach(self.children@, start, max_depth as int).contains(c) && c
                            < self.cat_articles@.len() && bitmap_elems(
                            #[trigger] self.cat_articles@[c as int],
                        ).contains(a);
                }
            }
        }
        let dense_vec = bitmap_to_vec(&dense_bm);
        let mut out = bitmap_new();
        let mut k: usize = 0;
        while k < dense_vec.len()
            invariant
                self.wf(),
                forall|a: u32| dense_vec@.contains(a) <==> dense_set.contains(a),
                forall|a: u32| dense_set.contains(a) ==> (a as int) < self.num_arts(),
                forall|i: int| 0 <= i < dense_vec@.len() ==> dense_set.contains(dense_vec@[i]),
                k <= dense_vec@.len(),
                forall|q: u32|
                    bitmap_elems(out).contains(q) <==> exists|i: int|
                        0 <= i < k && self.art_dense_to_original@[(#[trigger] dense_vec@[i]) as int]
                            == q,
            decreases dense_vec@.len() - k,
        {
            let a = dense_vec[k];
            proof {
                assert(dense_vec@.contains(dense_vec@[k as int]));
            }
            let ghost old_out = bitmap_elems(out);
            bitmap_insert(&mut out, self.art_dense_to_original[a as usize]);
            proof {
                assert forall|q: u32| bitmap_elems(out).contains(q) implies exists|i: int|
                    0 <= i < k + 1 && self.art_dense_to_original@[(#[trigger] dense_vec@[i]) as int]
                        == q by {
                    if old_out.contains(q) {
                        let i = choose|i: int|
                            0 <= i < k && self.art_dense_to_original@[(#[trigger] dense_vec@[i]) as int]
                                == q;
                        assert(self.art_dense_to_original@[dense_vec@[i] as int] == q);
                    } else {
                        assert(self.art_dense_to_original@[dense_vec@[k as int] as int] == q);
                    }
                }
            }
            k = k + 1;
        }
        proof {
            let qid_set = self.qids_of_articles(dense_set);
            assert forall|q: u32| bitmap_elems(out).contains(q) implies qid_set.contains(q) by {
                let i = choose|i: int|
                    0 <= i < dense_vec@.len()
                        && self.art_dense_to_original@[(#[trigger] dense_vec@[i]) as int] == q;
                assert(dense_set.contains(dense_vec@[i]));
            }
            assert forall|q: u32| qid_set.contains(q) implies bitmap_elems(out).contains(q) by {
                let a = choose|a: u32|
                    dense_set.contains(a) && a < self.num_arts()
                        && self.art_dense_to_original@[a as int] == q;
                assert(dense_vec@.contains(a));
                let i = choose|i: int| 0 <= i < dense_vec@.len() && dense_vec@[i] == a;
                assert(self.art_dense_to_original@[dense_vec@[i] as int] == q);
            }
            assert(bitmap_elems(out) =~= qid_set);
        }
        Ok(out)
    }

    /// Get immediate subcategories (depth 1), as external QIDs.
    /// An unknown category yields the empty list, never an error.
    pub fn get_child_categories(&self, category_qid: u32) -> (r: Result<Vec<u32>, String>)
        requires
            self.wf(),
        ensures
            r is Ok,
            match r {
                Ok(v) => {
                    if self.cat_original_to_dense@.contains_key(category_qid) {
                        let d = self.cat_original_to_dense@[category_qid] as int;
                        &&& v@.len() == self.children@[d].len()
                        &&& forall|j: int|
                            0 <= j < v@.len() ==> v@[j] == self.cat_dense_to_original@[self.children@[d][j] as int]
                    } else {
                        v@.len() == 0
                    }
                },
                Err(_) => false,
            },
    {
        let dense_id = match self.cat_original_to_dense.get(category_qid) {
            Some(id) => id,
            None => {
                return Ok(Vec::new());
            },
        };
        let children_dense = self.children.get(dense_id);
        let mut v: Vec<u32> = Vec::new();
        let mut j: usize = 0;
        while j < children_dense.len()
            invariant
                self.wf(),
                self.cat_original_to_dense@.contains_key(category_qid),
                dense_id == self.cat_original_to_dense@[category_qid],
                children_dense@ == self.children@[dense_id as int],
                j <= children_dense@.len(),
                v@.len() == j,
                forall|i: int|
                    0 <= i < j ==> v@[i] == self.cat_dense_to_original@[children_dense@[i] as int],
            decreases children_dense@.len() - j,
        {
            let child = children_dense[j];
            v.push(self.cat_dense_to_original[child as usize]);
            j = j + 1;
        }
        Ok(v)
    }

    /// Find parent categories (navigate up), as external QIDs.
    pub fn get_parent_categories(&self, category_qid: u32) -> (r: Result<Vec<u32>, String>)
        requires
            self.wf(),
        ensures
            r is Ok,
            match r {
                Ok(v) => {
                    if self.cat_original_to_dense@.contains_key(category_qid) {
                        let d = self.cat_original_to_dense@[category_qid] as int;
                        &&& v@.len() == self.parents@[d].len()
                        &&& forall|j: int|
                            0 <= j < v@.len() ==> v@[j] == self.cat_dense_to_original@[self.parents@[d][j] as int]
                    } else {
                        v@.len() == 0
                    }
                },
                Err(_) => false,
            },
    {
        let dense_id = match self.cat_original_to_dense.get(category_qid) {
            Some(id) => id,
            None => {
                return Ok(Vec::new());
            },
        };
        let parents_dense = self.parents.get(dense_id);
        let mut v: Vec<u32> = Vec::new();
        let mut j: usize = 0;
        while j < parents_dense.len()
            invariant
                self.wf(),
                self.cat_original_to_dense@.contains_key(category_qid),
                dense_id == self.cat_original_to_dense@[category_qid],
                parents_dense@ == self.parents@[dense_id as int],
                j <= parents_dense@.len(),
                v@.len() == j,
                forall|i: int|
                    0 <= i < j ==> v@[i] == self.cat_dense_to_original@[parents_dense@[i] as int],
            decreases parents_dense@.len() - j,
        {
            let parent = parents_dense[j];
            v.push(self.cat_dense_to_original[parent as usize]);
            j = j + 1;
        }
        Ok(v)
    }

    /// Get all categories recorded for a specific article, as external QIDs.
    pub fn get_categories_for_article(&self, wiki_article_qid: u32) -> (r: Result<
        Vec<u32>,
        String,
    >)
        requires
            self.wf(),
        ensures
            r is Ok,
            match r {
                Ok(v) => {
                    if self.art_original_to_dense@.contains_key(wiki_article_qid) {
                        let d = self.art_original_to_dense@[wiki_article_qid] as int;
                        &&& v@.len() == self.article_cats@[d].len()
                        &&& forall|j: int|
                            0 <= j < v@.len() ==> v@[j] == self.cat_dense_to_original@[self.article_cats@[d][j] as int]
                    } else {
                        v@.len() == 0
                    }
                },
                Err(_) => false,
            },
    {
        let dense_article = match self.art_original_to_dense.get(wiki_article_qid) {
            Some(id) => id,
            None => {
                return Ok(Vec::new());
            },
        };
        let cats_dense = self.article_cats.get(dense_article);
        let mut v: Vec<u32> = Vec::new();
        let mut j: usize = 0;
        while j < cats_dense.len()
            invariant
                self.wf(),
                self.art_original_to_dense@.contains_key(wiki_article_qid),
                dense_article == self.art_original_to_dense@[wiki_article_qid],
                cats_dense@ == self.article_cats@[dense_article as int],
                j <= cats_dense@.len(),
                v@.len() == j,
                forall|i: int|
                    0 <= i < j ==> v@[i] == self.cat_dense_to_original@[cats_dense@[i] as int],
            decreases cats_dense@.len() - j,
        {
            let c = cats_dense[j];
            v.push(self.cat_dense_to_original[c as usize]);
            j = j + 1;
        }
        Ok(v)
    }
}

} // verus!

verus! {

/// For every hierarchy row whose two QIDs are known, the child stands in the
/// parent's forward adjacency and the parent in the child's reverse
/// adjacency, and both dense ids translate back to the row's QIDs.
pub proof fn lemma_hierarchy_edge_symmetry(
    g: WikiGraph,
    cats: Seq<u32>,
    arts: Seq<u32>,
    cat_pairs: Seq<(u32, u32)>,
    art_pairs: Seq<(u32, u32)>,
    k: int,
)
    requires
        g.wf(),
        g.built_from(cats, arts, cat_pairs, art_pairs),
        0 <= k < cat_pairs.len(),
        qid_index_map(cats).contains_key(cat_pairs[k].0),
        qid_index_map(cats).contains_key(cat_pairs[k].1),
    ensures
        ({
            let pd = qid_index_map(cats)[cat_pairs[k].0];
            let cd = qid_index_map(cats)[cat_pairs[k].1];
            &&& pd < g.num_cats() && cd < g.num_cats()
            &&& g.children@[pd as int].contains(cd)
            &&& g.parents@[cd as int].contains(pd)
            &&& g.cat_dense_to_original@[pd as int] == cat_pairs[k].0
            &&& g.cat_dense_to_original@[cd as int] == cat_pairs[k].1
        }),
{
    let cmap = qid_index_map(cats);
    let pd = cmap[cat_pairs[k].0];
    let cd = cmap[cat_pairs[k].1];
    let hier = resolve_pairs(cat_pairs, cmap, cmap);
    lemma_resolve_pairs_contains(cat_pairs, cmap, cmap, pd, cd);
    assert(hier.contains((pd, cd)));
    crate::csr_adjacency::lemma_edges_from_contains(hier, pd as int, cd);
    let i = choose|i: int| 0 <= i < hier.len() && hier[i] == (pd, cd);
    assert(swap_pairs(hier)[i] == (cd, pd));
    assert(swap_pairs(hier).contains((cd, pd)));
    crate::csr_adjacency::lemma_edges_from_contains(swap_pairs(hier), cd as int, pd);
}

/// For every membership row whose two QIDs are known, the article belongs to
/// the category at depth 0 and the category stands in the article's recorded
/// category list.
pub proof fn lemma_membership_symmetry(
    g: WikiGraph,
    cats: Seq<u32>,
    arts: Seq<u32>,
    cat_pairs: Seq<(u32, u32)>,
    art_pairs: Seq<(u32, u32)>,
    k: int,
)
    requires
        g.wf(),
        g.built_from(cats, arts, cat_pairs, art_pairs),
        0 <= k < art_pairs.len(),
        qid_index_map(arts).contains_key(art_pairs[k].0),
        qid_index_map(cats).contains_key(art_pairs[k].1),
    ensures
        ({
            let ad = qid_index_map(arts)[art_pairs[k].0];
            let cd = qid_index_map(cats)[art_pairs[k].1];
            &&& ad < g.num_arts() && cd < g.num_cats()
            &&& g.articles_in_category_spec(art_pairs[k].1, 0).contains(ad)
            &&& g.article_cats@[ad as int].contains(cd)
            &&& g.art_dense_to_original@[ad as int] == art_pairs[k].0
            &&& g.cat_dense_to_original@[cd as int] == art_pairs[k].1
        }),
{
    let cmap = qid_index_map(cats);
    let amap = qid_index_map(arts);
    let ad = amap[art_pairs[k].0];
    let cd = cmap[art_pairs[k].1];
    let membership = resolve_pairs(art_pairs, amap, cmap);
    lemma_resolve_pairs_contains(art_pairs, amap, cmap, ad, cd);
    assert(membership.contains((ad, cd)));
    assert(bitmap_elems(g.cat_articles@[cd as int]).contains(ad));
    assert(reach(g.children@, cd, 0).contains(cd));
    assert(g.articles_dense_within(cd, 0).contains(ad));
    crate::csr_adjacency::lemma_edges_from_contains(membership, ad as int, cd);
}

/// Deepening a membership query never loses an article:
/// `articles_in_category(c, d + 1)` contains `articles_in_category(c, d)`.
pub proof fn lemma_articles_in_category_monotone(g: WikiGraph, category_qid: u32, d: int)
    requires
        g.wf(),
    ensures
        g.articles_in_category_spec(category_qid, d).subset_of(
            g.articles_in_category_spec(category_qid, d + 1),
        ),
{
    if g.cat_original_to_dense@.contains_key(category_qid) {
        let start = g.cat_original_to_dense@[category_qid];
        lemma_reach_monotone(g.children@, start, d, d + 1);
        assert forall|a: u32| g.articles_dense_within(start, d).contains(a) implies
            g.articles_dense_within(start, d + 1).contains(a) by {
            let c = choose|c: u32|
                reach(g.children@, start, d).contains(c) && c < g.cat_articles@.len()
                    && bitmap_elems(#[trigger] g.cat_articles@[c as int]).contains(a);
            assert(reach(g.children@, start, d + 1).contains(c));
        }
    }
}

/// Round trip: translating a known external id to its dense id and back
/// yields the same external id, for both node kinds.
pub proof fn lemma_dense_id_round_trip(g: WikiGraph, q: u32)
    requires
        g.wf(),
    ensures
        g.cat_original_to_dense@.contains_key(q)
            ==> g.cat_dense_to_original@[g.cat_original_to_dense@[q] as int] == q,
        g.art_original_to_dense@.contains_key(q)
            ==> g.art_dense_to_original@[g.art_original_to_dense@[q] as int] == q,
{
}

/// Every dense id the translation layer hands out is below the node count of
/// its kind.
pub proof fn lemma_dense_id_bounds(g: WikiGraph, q: u32)
    requires
        g.wf(),
    ensures
        g.cat_original_to_dense@.contains_key(q) ==> g.cat_original_to_dense@[q] < g.num_cats(),
        g.art_original_to_dense@.contains_key(q) ==> g.art_original_to_dense@[q] < g.num_arts(),
{
}

} // verus!
