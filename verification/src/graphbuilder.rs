//! Deterministic graph construction from the per-wiki snapshot tables.
//!
//! The caller reads the columnar snapshot files and hands over four plain
//! tables: category QIDs and article QIDs in source order, hierarchy edges
//! as `(parent_qid, child_qid)` pairs, and memberships as
//! `(article_qid, category_qid)` pairs.  Dense ids are allocated in source
//! order; edge rows naming unknown QIDs are silently dropped (they point to
//! namespaces this engine does not index).

use crate::bitmap::bitmap_elems;
use crate::bitmap::bitmap_insert;
use crate::bitmap::bitmap_new;
use crate::csr_adjacency::edges_from;
use crate::csr_adjacency::lemma_edges_from_contains;
use crate::csr_adjacency::CsrAdjacency;
use crate::direct_map::DirectMap;
use crate::wikigraph::lemma_qid_index_map;
use crate::wikigraph::lemma_resolve_pairs_bound;
use crate::wikigraph::qid_index_map;
use crate::wikigraph::resolve_pairs;
use crate::wikigraph::swap_pairs;
use crate::wikigraph::WikiGraph;
use vstd::prelude::*;

verus! {

/// A sequence extended by one element holds exactly the old elements and
/// the new one.
proof fn lemma_push_contains<A>(s: Seq<A>, x: A, y: A)
    ensures
        s.push(x).contains(y) <==> (s.contains(y) || y == x),
{
    if s.push(x).contains(y) {
        let i = choose|i: int| 0 <= i < s.push(x).len() && s.push(x)[i] == y;
        if i < s.len() {
            assert(s[i] == y);
        }
    }
    if s.contains(y) {
        let i = choose|i: int| 0 <= i < s.len() && s[i] == y;
        assert(s.push(x)[i] == y);
    }
    assert(s.push(x)[s.len() as int] == x);
}

/// Builds one wiki's graph from its snapshot tables.
pub struct GraphBuilder {
    pub wiki: String,
}

impl GraphBuilder {
    pub fn new(wiki: &str) -> (r: Self)
        ensures
            r.wiki@ == wiki@,
    {
        GraphBuilder { wiki: wiki.to_owned() }
    }

    /// Allocates dense ids `0, 1, ...` in source order and builds the
    /// two-way id translation for one node kind.
    fn load_nodes(ids: &Vec<u32>) -> (r: (Vec<u32>, DirectMap))
        requires
            ids@.len() <= u32::MAX,
        ensures
            r.0@ == ids@,
            r.1@ == qid_index_map(ids@),
            r.1.wf(),
    {
        let n = ids.len();
        let mut dense_to_original: Vec<u32> = Vec::new();
        let mut mapper = DirectMap::new(n);
        let mut i: usize = 0;
        while i < n
            invariant
                n == ids@.len(),
                n <= u32::MAX,
                i <= n,
                dense_to_original@ == ids@.take(i as int),
                mapper@ == qid_index_map(ids@.take(i as int)),
                mapper.wf(),
            decreases n - i,
        {
            let id = ids[i];
            dense_to_original.push(id);
            mapper.insert(id, i as u32);
            proof {
                assert(ids@.take(i as int + 1).drop_last() =~= ids@.take(i as int));
                assert(ids@.take(i as int + 1).last() == ids@[i as int]);
                assert(dense_to_original@ =~= ids@.take(i as int + 1));
            }
            i = i + 1;
        }
        proof {
            assert(ids@.take(n as int) =~= ids@);
        }
        (dense_to_original, mapper)
    }

    /// Builds the full topology from the four snapshot tables:
    /// `cats` and `arts` hold the node QIDs in source order,
    /// `cat_pairs` the `(parent_qid, child_qid)` hierarchy rows, and
    /// `art_pairs` the `(article_qid, category_qid)` membership rows.
    pub fn build(
        &self,
        cats: Vec<u32>,
        arts: Vec<u32>,
        cat_pairs: Vec<(u32, u32)>,
        art_pairs: Vec<(u32, u32)>,
    ) -> (g: WikiGraph)
        requires
            cats@.len() <= u32::MAX,
            arts@.len() <= u32::MAX,
        ensures
            g.wf(),
            g.built_from(cats@, arts@, cat_pairs@, art_pairs@),
    {
        let num_cats = cats.len();
        let num_arts = arts.len();
        let (cat_dense_to_original, cat_original_to_dense) = Self::load_nodes(&cats);
        let (art_dense_to_original, art_original_to_dense) = Self::load_nodes(&arts);
        let ghost cmap = qid_index_map(cats@);
        let ghost amap = qid_index_map(arts@);
        proof {
            assert forall|q: u32| #[trigger] cmap.contains_key(q) implies cmap[q] < num_cats
                && cats@[cmap[q] as int] == q by {
                lemma_qid_index_map(cats@, q);
            }
            assert forall|q: u32| #[trigger] amap.contains_key(q) implies amap[q] < num_arts
                && arts@[amap[q] as int] == q by {
                lemma_qid_index_map(arts@, q);
            }
        }
        // Hierarchy: translate to dense pairs in both orientations.
        let n_cat_pairs = cat_pairs.len();
        let mut forward: Vec<(u32, u32)> = Vec::new();
        let mut backward: Vec<(u32, u32)> = Vec::new();
        let mut k: usize = 0;
        while k < n_cat_pairs
            invariant
                n_cat_pairs == cat_pairs@.len(),
                k <= n_cat_pairs,
                cat_original_to_dense@ == cmap,
                forward@ == resolve_pairs(cat_pairs@.take(k as int), cmap, cmap),
                backward@ == swap_pairs(forward@),
            decreases n_cat_pairs - k,
        {
            let (p_raw, c_raw) = cat_pairs[k];
            proof {
                assert(cat_pairs@.take(k as int + 1).drop_last() =~= cat_pairs@.take(k as int));
                assert(cat_pairs@.take(k as int + 1).last() == cat_pairs@[k as int]);
            }
            if let Some(p_dense) = cat_original_to_dense.get(p_raw) {
                if let Some(c_dense) = cat_original_to_dense.get(c_raw) {
                    forward.push((p_dense, c_dense));
                    backward.push((c_dense, p_dense));
                    proof {
                        assert(backward@ =~= swap_pairs(forward@));
                    }
                }
            }
            k = k + 1;
        }
        proof {
            assert(cat_pairs@.take(n_cat_pairs as int) =~= cat_pairs@);
        }
        let ghost hier = resolve_pairs(cat_pairs@, cmap, cmap);
        let children = CsrAdjacency::from_pairs(num_cats, forward.as_slice());
        let parents = CsrAdjacency::from_pairs(num_cats, backward.as_slice());
        proof {
            lemma_resolve_pairs_bound(cat_pairs@, cmap, cmap, num_cats as int, num_cats as int);
            assert forall|p: int, j: int|
                0 <= p < children@.len() && 0 <= j < children@[p].len() implies children@[p][j]
                < num_cats by {
                let d = children@[p][j];
                assert(edges_from(hier, p).contains(d));
                lemma_edges_from_contains(hier, p, d);
                let i = choose|i: int| 0 <= i < hier.len() && hier[i] == ((p as u32), d);
                assert(hier[i].1 < num_cats);
            }
            assert forall|p: int, j: int|
                0 <= p < parents@.len() && 0 <= j < parents@[p].len() implies parents@[p][j]
                < num_cats by {
                let d = parents@[p][j];
                assert(edges_from(swap_pairs(hier), p).contains(d));
                lemma_edges_from_contains(swap_pairs(hier), p, d);
                let i = choose|i: int|
                    0 <= i < swap_pairs(hier).len() && swap_pairs(hier)[i] == ((p as u32), d);
                assert(hier[i].0 < num_cats);
            }
        }
        // Membership: per-category bitmaps plus the article->category table.
        let mut cat_articles: Vec<roaring::RoaringBitmap> = Vec::new();
        let mut c: usize = 0;
        while c < num_cats
            invariant
                c <= num_cats,
                cat_articles@.len() == c,
                forall|i: int|
                    0 <= i < c ==> bitmap_elems(#[trigger] cat_articles@[i]) == Set::<u32>::empty(),
            decreases num_cats - c,
        {
            cat_articles.push(bitmap_new());
            c = c + 1;
        }
        let n_art_pairs = art_pairs.len();
        let mut mem_pairs: Vec<(u32, u32)> = Vec::new();
        let mut k: usize = 0;
        proof {
            assert forall|cd: u32| cd < num_cats implies bitmap_elems(cat_articles@[cd as int])
                =~= Set::new(
                |a: u32| resolve_pairs(art_pairs@.take(0), amap, cmap).contains((a, cd)),
            ) by {
                assert(resolve_pairs(art_pairs@.take(0), amap, cmap) =~= Seq::<(u32, u32)>::empty());
            }
        }
        while k < n_art_pairs
            invariant
                n_art_pairs == art_pairs@.len(),
                k <= n_art_pairs,
                art_original_to_dense@ == amap,
                cat_original_to_dense@ == cmap,
                forall|q: u32| #[trigger] amap.contains_key(q) ==> amap[q] < num_arts,
                forall|q: u32| #[trigger] cmap.contains_key(q) ==> cmap[q] < num_cats,
                mem_pairs@ == resolve_pairs(art_pairs@.take(k as int), amap, cmap),
                cat_articles@.len() == num_cats,
                forall|cd: u32|
                    cd < num_cats ==> bitmap_elems(cat_articles@[cd as int]) == Set::new(
                        |a: u32|
                            resolve_pairs(art_pairs@.take(k as int), amap, cmap).contains((a, cd)),
                    ),
            decreases n_art_pairs - k,
        {
            let (a_raw, c_raw) = art_pairs[k];
            proof {
                assert(art_pairs@.take(k as int + 1).drop_last() =~= art_pairs@.take(k as int));
                assert(art_pairs@.take(k as int + 1).last() == art_pairs@[k as int]);
            }
            let ghost old_resolved = resolve_pairs(art_pairs@.take(k as int), amap, cmap);
            let ghost new_resolved = resolve_pairs(art_pairs@.take(k as int + 1), amap, cmap);
            if let Some(a_dense) = art_original_to_dense.get(a_raw) {
                if let Some(c_dense) = cat_original_to_dense.get(c_raw) {
                    mem_pairs.push((a_dense, c_dense));
                    let ghost old_bms = cat_articles@;
                    bitmap_insert(&mut cat_articles[c_dense as usize], a_dense);
                    proof {
                        assert(new_resolved == old_resolved.push((a_dense, c_dense)));
                        assert forall|cd: u32| cd < num_cats implies bitmap_elems(
                            cat_articles@[cd as int],
                        ) =~= Set::new(|a: u32| new_resolved.contains((a, cd))) by {
                            if cd == c_dense {
                                assert(bitmap_elems(cat_articles@[cd as int]) == bitmap_elems(
                                    old_bms[cd as int],
                                ).insert(a_dense));
                                assert forall|a: u32|
                                    bitmap_elems(cat_articles@[cd as int]).contains(a)
                                        <==> new_resolved.contains((a, cd)) by {
                                    lemma_push_contains(old_resolved, (a_dense, c_dense), (a, cd));
                                }
                            } else {
                                assert(cat_articles@[cd as int] == old_bms[cd as int]);
                                assert forall|a: u32|
                                    bitmap_elems(cat_articles@[cd as int]).contains(a)
                                        <==> new_resolved.contains((a, cd)) by {
                                    lemma_push_contains(old_resolved, (a_dense, c_dense), (a, cd));
                                }
                            }
                        }
                    }
                }
            }
            k = k + 1;
        }
        proof {
            assert(art_pairs@.take(n_art_pairs as int) =~= art_pairs@);
        }
        let ghost membership = resolve_pairs(art_pairs@, amap, cmap);
        let article_cats = CsrAdjacency::from_pairs(num_arts, mem_pairs.as_slice());
        proof {
            lemma_resolve_pairs_bound(art_pairs@, amap, cmap, num_arts as int, num_cats as int);
            assert forall|a: int, j: int|
                0 <= a < article_cats@.len() && 0 <= j < article_cats@[a].len() implies
                article_cats@[a][j] < num_cats by {
                let d = article_cats@[a][j];
                assert(edges_from(membership, a).contains(d));
                lemma_edges_from_contains(membership, a, d);
                let i = choose|i: int| 0 <= i < membership.len() && membership[i] == ((a as u32), d);
                assert(membership[i].1 < num_cats);
            }
            assert forall|cd: int, x: u32|
                0 <= cd < cat_articles@.len() && #[trigger] bitmap_elems(
                    cat_articles@[cd],
                ).contains(x) implies x < num_arts by {
                assert(membership.contains((x, cd as u32)));
                let i = choose|i: int| 0 <= i < membership.len() && membership[i] == (x, cd as u32);
                assert(membership[i].0 < num_arts);
            }
        }
        WikiGraph {
            children,
            parents,
            cat_articles,
            article_cats,
            cat_dense_to_original,
            cat_original_to_dense,
            art_dense_to_original,
            art_original_to_dense,
        }
    }
}

} // verus!
