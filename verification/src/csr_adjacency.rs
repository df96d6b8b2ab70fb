//! A reusable Compressed Sparse Row (CSR) adjacency list.
//!
//! Replaces `Vec<Vec<u32>>`: two flat arrays, `offsets` and `targets`, where
//! node `i`'s out-neighbors live in `targets[offsets[i] .. offsets[i + 1]]`.
//! Construction from unordered `(source, destination)` pairs uses a two-pass
//! bucket algorithm: count out-degrees, prefix-sum into `offsets`, then write
//! each destination at a moving cursor.

use vstd::prelude::*;
use vstd::slice::slice_subrange;

verus! {

/// The sequence of destinations of the pairs whose source equals `src`,
/// in the order the pairs appear.
pub open spec fn edges_from(pairs: Seq<(u32, u32)>, src: int) -> Seq<u32>
    decreases pairs.len(),
{
    if pairs.len() == 0 {
        Seq::empty()
    } else {
        let rest = edges_from(pairs.drop_last(), src);
        if pairs.last().0 as int == src {
            rest.push(pairs.last().1)
        } else {
            rest
        }
    }
}

/// Total number of edges of the sources `0 .. s`.
pub open spec fn cum_edges(pairs: Seq<(u32, u32)>, s: int) -> int
    decreases s,
{
    if s <= 0 {
        0
    } else {
        cum_edges(pairs, s - 1) + edges_from(pairs, s - 1).len()
    }
}

/// Number of pairs whose source is below `s`.
spec fn edges_src_lt(pairs: Seq<(u32, u32)>, s: int) -> int
    decreases pairs.len(),
{
    if pairs.len() == 0 {
        0
    } else {
        edges_src_lt(pairs.drop_last(), s) + if (pairs.last().0 as int) < s {
            1int
        } else {
            0int
        }
    }
}

/// A destination stands in a node's edge list exactly when the pair list
/// holds the corresponding pair.
pub proof fn lemma_edges_from_contains(pairs: Seq<(u32, u32)>, s: int, d: u32)
    requires
        0 <= s < 0x1_0000_0000,
    ensures
        edges_from(pairs, s).contains(d) <==> pairs.contains(((s as u32), d)),
    decreases pairs.len(),
{
    if pairs.len() > 0 {
        lemma_edges_from_contains(pairs.drop_last(), s, d);
        let rest = edges_from(pairs.drop_last(), s);
        if edges_from(pairs, s).contains(d) {
            if pairs.last().0 as int == s && pairs.last().1 == d {
                assert(pairs[pairs.len() - 1] == ((s as u32), d));
            } else {
                assert(rest.contains(d)) by {
                    let j = choose|j: int|
                        0 <= j < edges_from(pairs, s).len() && edges_from(pairs, s)[j] == d;
                    if pairs.last().0 as int == s {
                        assert(edges_from(pairs, s) == rest.push(pairs.last().1));
                        assert(j < rest.len());
                    }
                }
                let j = choose|j: int| 0 <= j < pairs.drop_last().len() && pairs.drop_last()[j]
                    == ((s as u32), d);
                assert(pairs[j] == ((s as u32), d));
            }
        }
        if pairs.contains(((s as u32), d)) {
            let j = choose|j: int| 0 <= j < pairs.len() && pairs[j] == ((s as u32), d);
            if j < pairs.len() - 1 {
                assert(pairs.drop_last()[j] == ((s as u32), d));
                assert(rest.contains(d));
                let i = choose|i: int| 0 <= i < rest.len() && rest[i] == d;
                if pairs.last().0 as int == s {
                    assert(edges_from(pairs, s)[i] == d);
                } else {
                    assert(edges_from(pairs, s)[i] == d);
                }
            } else {
                assert(pairs.last() == ((s as u32), d));
                assert(edges_from(pairs, s).last() == d);
            }
        }
    }
}

/// A node's edge list never exceeds the pair list it came from.
proof fn lemma_edges_from_len_le(pairs: Seq<(u32, u32)>, src: int)
    ensures
        edges_from(pairs, src).len() <= pairs.len(),
    decreases pairs.len(),
{
    if pairs.len() > 0 {
        lemma_edges_from_len_le(pairs.drop_last(), src);
    }
}

/// Extending the processed prefix by one pair extends exactly the bucket of
/// that pair's source.
proof fn lemma_edges_from_take_step(pairs: Seq<(u32, u32)>, k: int, src: int)
    requires
        0 <= k < pairs.len(),
    ensures
        edges_from(pairs.take(k + 1), src) == if pairs[k].0 as int == src {
            edges_from(pairs.take(k), src).push(pairs[k].1)
        } else {
            edges_from(pairs.take(k), src)
        },
{
    assert(pairs.take(k + 1).drop_last() =~= pairs.take(k));
    assert(pairs.take(k + 1).last() == pairs[k]);
}

/// The bucket of a prefix is a prefix of the bucket of the whole pair list.
proof fn lemma_edges_from_take_prefix(pairs: Seq<(u32, u32)>, k: int, src: int)
    requires
        0 <= k <= pairs.len(),
    ensures
        edges_from(pairs.take(k), src).len() <= edges_from(pairs, src).len(),
        forall|j: int|
            0 <= j < edges_from(pairs.take(k), src).len() ==> edges_from(pairs.take(k), src)[j]
                == edges_from(pairs, src)[j],
    decreases pairs.len() - k,
{
    if k == pairs.len() {
        assert(pairs.take(k) =~= pairs);
    } else {
        lemma_edges_from_take_step(pairs, k, src);
        lemma_edges_from_take_prefix(pairs, k + 1, src);
    }
}

/// Counting pairs with source below `s + 1` splits into those below `s`
/// and the bucket of `s` itself.
proof fn lemma_edges_src_lt_step(pairs: Seq<(u32, u32)>, s: int)
    ensures
        edges_src_lt(pairs, s + 1) == edges_src_lt(pairs, s) + edges_from(pairs, s).len(),
    decreases pairs.len(),
{
    if pairs.len() > 0 {
        lemma_edges_src_lt_step(pairs.drop_last(), s);
    }
}

proof fn lemma_edges_src_lt_le_len(pairs: Seq<(u32, u32)>, s: int)
    ensures
        0 <= edges_src_lt(pairs, s) <= pairs.len(),
    decreases pairs.len(),
{
    if pairs.len() > 0 {
        lemma_edges_src_lt_le_len(pairs.drop_last(), s);
    }
}

/// The prefix sum of the per-source degrees counts each pair at most once.
proof fn lemma_cum_edges_le_len(pairs: Seq<(u32, u32)>, s: int)
    requires
        s >= 0,
    ensures
        cum_edges(pairs, s) == edges_src_lt(pairs, s),
        0 <= cum_edges(pairs, s) <= pairs.len(),
    decreases s,
{
    if s == 0 {
        assert(edges_src_lt(pairs, 0) == 0) by {
            lemma_edges_src_lt_zero(pairs);
        }
    } else {
        lemma_cum_edges_le_len(pairs, s - 1);
        lemma_edges_src_lt_step(pairs, s - 1);
    }
    lemma_edges_src_lt_le_len(pairs, s);
}

proof fn lemma_edges_src_lt_zero(pairs: Seq<(u32, u32)>)
    ensures
        edges_src_lt(pairs, 0) == 0,
    decreases pairs.len(),
{
    if pairs.len() > 0 {
        lemma_edges_src_lt_zero(pairs.drop_last());
    }
}

/// A compact Source -> Targets adjacency over dense ids in `[0, N)`.
pub struct CsrAdjacency {
    /// Start index in `targets` for each id; length is `N + 1`.
    offsets: Vec<usize>,
    /// The contiguous list of all edge targets.
    targets: Vec<u32>,
}

impl View for CsrAdjacency {
    type V = Seq<Seq<u32>>;

    /// The adjacency as one neighbor sequence per node.
    closed spec fn view(&self) -> Seq<Seq<u32>> {
        Seq::new(
            (self.offsets.len() - 1) as nat,
            |i: int| self.targets@.subrange(self.offsets[i] as int, self.offsets[i + 1] as int),
        )
    }
}

impl CsrAdjacency {
    /// Structural well-formedness: `offsets` is a monotone prefix-sum table
    /// into `targets`.
    pub closed spec fn wf(&self) -> bool {
        &&& self.offsets.len() >= 1
        &&& self.offsets[0] == 0
        &&& self.offsets[self.offsets.len() - 1] == self.targets.len()
        &&& forall|a: int, b: int|
            0 <= a <= b < self.offsets.len() ==> self.offsets[a] <= self.offsets[b]
    }

    /// Returns the neighbors (children or parents) for a given dense id.
    /// Returns an empty slice if the id is out of bounds.
    pub fn get(&self, id: u32) -> (r: &[u32])
        requires
            self.wf(),
        ensures
            id < self@.len() ==> r@ == self@[id as int],
            id >= self@.len() ==> r@ == Seq::<u32>::empty(),
    {
        if (id as usize) < self.offsets.len() - 1 {
            let start = self.offsets[id as usize];
            let end = self.offsets[id as usize + 1];
            slice_subrange(self.targets.as_slice(), start, end)
        } else {
            let r = slice_subrange(self.targets.as_slice(), 0, 0);
            proof {
                assert(r@ =~= Seq::<u32>::empty());
            }
            r
        }
    }

    /// Constructs the CSR form of `pairs` over nodes `0 .. num_nodes` with a
    /// two-pass bucket algorithm.  Pairs whose source is out of range are
    /// silently dropped; duplicates are preserved; each node's targets keep
    /// the order in which its pairs appear.
    pub fn from_pairs(num_nodes: usize, pairs: &[(u32, u32)]) -> (r: Self)
        ensures
            r.wf(),
            r@.len() == num_nodes,
            forall|s: int| 0 <= s < num_nodes ==> r@[s] == edges_from(pairs@, s),
    {
        let n_pairs = pairs.len();
        // Pass 1: count out-degrees.
        let mut counts: Vec<usize> = vec![0usize; num_nodes];
        let mut k: usize = 0;
        while k < n_pairs
            invariant
                n_pairs == pairs.len(),
                counts.len() == num_nodes,
                k <= n_pairs,
                forall|s: int|
                    0 <= s < num_nodes ==> counts[s] == edges_from(
                        pairs@.take(k as int),
                        s,
                    ).len(),
            decreases n_pairs - k,
        {
            let src = pairs[k].0;
            proof {
                lemma_edges_from_len_le(pairs@.take(k as int), src as int);
                assert forall|s: int| 0 <= s < num_nodes implies edges_from(
                    pairs@.take(k as int + 1),
                    s,
                ).len() == edges_from(pairs@.take(k as int), s).len() + if pairs@[k as int].0 as int
                    == s {
                    1int
                } else {
                    0int
                } by {
                    lemma_edges_from_take_step(pairs@, k as int, s);
                }
            }
            if (src as usize) < num_nodes {
                counts[src as usize] = counts[src as usize] + 1;
            }
            k = k + 1;
        }
        proof {
            assert(pairs@.take(n_pairs as int) =~= pairs@);
        }
        // Prefix-sum into offsets.
        let mut offsets: Vec<usize> = Vec::new();
        offsets.push(0);
        let mut i: usize = 0;
        while i < num_nodes
            invariant
                n_pairs == pairs.len(),
                counts.len() == num_nodes,
                forall|s: int| 0 <= s < num_nodes ==> counts[s] == edges_from(pairs@, s).len(),
                i <= num_nodes,
                offsets.len() == i + 1,
                forall|s: int| 0 <= s <= i ==> offsets[s] == cum_edges(pairs@, s),
                forall|a: int, b: int| 0 <= a <= b <= i ==> offsets[a] <= offsets[b],
            decreases num_nodes - i,
        {
            proof {
                lemma_cum_edges_le_len(pairs@, i as int + 1);
                assert(cum_edges(pairs@, i as int + 1) == cum_edges(pairs@, i as int) + edges_from(
                    pairs@,
                    i as int,
                ).len());
                assert(offsets[i as int] + counts[i as int] <= n_pairs);
            }
            let next = offsets[i] + counts[i];
            offsets.push(next);
            i = i + 1;
        }
        let total = offsets[num_nodes];
        // Pass 2: write each destination at its bucket cursor.
        let mut targets: Vec<u32> = vec![0u32; total];
        let mut cursors: Vec<usize> = offsets.clone();
        proof {
            assert(cursors@ =~= offsets@);
        }
        let mut k: usize = 0;
        while k < n_pairs
            invariant
                n_pairs == pairs.len(),
                offsets.len() == num_nodes + 1,
                forall|s: int| 0 <= s <= num_nodes ==> offsets[s] == cum_edges(pairs@, s),
                forall|a: int, b: int| 0 <= a <= b <= num_nodes ==> offsets[a] <= offsets[b],
                targets.len() == offsets[num_nodes as int],
                cursors.len() == num_nodes + 1,
                k <= n_pairs,
                forall|s: int|
                    0 <= s < num_nodes ==> cursors[s] == offsets[s] + edges_from(
                        pairs@.take(k as int),
                        s,
                    ).len(),
                forall|s: int|
                    0 <= s < num_nodes ==> offsets[s] + edges_from(pairs@, s).len() == offsets[s
                        + 1],
                forall|s: int, j: int|
                    0 <= s < num_nodes && 0 <= j < edges_from(pairs@.take(k as int), s).len()
                        ==> targets[offsets[s] + j] == edges_from(pairs@.take(k as int), s)[j],
            decreases n_pairs - k,
        {
            let ghost prev_targets = targets@;
            let src = pairs[k].0;
            let dst = pairs[k].1;
            proof {
                assert forall|s: int| 0 <= s < num_nodes implies edges_from(
                    pairs@.take(k as int),
                    s,
                ).len() <= edges_from(pairs@, s).len() && (forall|j: int|
                    0 <= j < edges_from(pairs@.take(k as int), s).len() ==> edges_from(
                        pairs@.take(k as int),
                        s,
                    )[j] == edges_from(pairs@, s)[j]) by {
                    lemma_edges_from_take_prefix(pairs@, k as int, s);
                }
                assert forall|s: int| 0 <= s < num_nodes implies #[trigger] edges_from(
                    pairs@.take(k as int + 1),
                    s,
                ) == if pairs@[k as int].0 as int == s {
                    edges_from(pairs@.take(k as int), s).push(pairs@[k as int].1)
                } else {
                    edges_from(pairs@.take(k as int), s)
                } by {
                    lemma_edges_from_take_step(pairs@, k as int, s);
                }
            }
            if (src as usize) < num_nodes {
                let pos = cursors[src as usize];
                proof {
                    lemma_edges_from_take_prefix(pairs@, k as int + 1, src as int);
                    assert(edges_from(pairs@.take(k as int + 1), src as int).len() <= edges_from(
                        pairs@,
                        src as int,
                    ).len());
                    assert(pos < offsets[src as int + 1]);
                    assert(offsets[src as int + 1] <= offsets[num_nodes as int]);
                }
                targets[pos] = dst;
                cursors[src as usize] = pos + 1;
                proof {
                    assert forall|s: int, j: int|
                        0 <= s < num_nodes && 0 <= j < (#[trigger] edges_from(
                            pairs@.take(k as int + 1),
                            s,
                        )).len() implies targets[#[trigger] (offsets[s] + j)] == edges_from(
                        pairs@.take(k as int + 1),
                        s,
                    )[j] by {
                        if s == src as int && j == edges_from(pairs@.take(k as int + 1), s).len()
                            - 1 {
                            assert(targets@[pos as int] == dst);
                        } else {
                            // Unchanged slot: it lies in bucket `s` strictly
                            // before that bucket's cursor, while the write went
                            // at bucket `src`'s cursor.
                            assert(offsets[s] + j < offsets[s] + edges_from(
                                pairs@.take(k as int),
                                s,
                            ).len());
                            if s < src as int {
                                assert(offsets[s + 1] <= offsets[src as int]);
                            } else if s > src as int {
                                assert(offsets[src as int + 1] <= offsets[s]);
                            }
                            assert(targets@[offsets[s] + j] == prev_targets[offsets[s] + j]);
                        }
                    }
                }
            }
            k = k + 1;
        }
        proof {
            assert(pairs@.take(n_pairs as int) =~= pairs@);
        }
        let r = CsrAdjacency { offsets, targets };
        proof {
            assert(cum_edges(pairs@, 0) == 0);
            assert forall|s: int| 0 <= s < num_nodes implies r@[s] == edges_from(pairs@, s) by {
                assert(r@[s] =~= edges_from(pairs@, s));
            }
        }
        r
    }
}

} // verus!
