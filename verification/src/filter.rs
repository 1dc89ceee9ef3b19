//! The filtered sub-graph: the union of the families and ancestor sets of
//! one or more focus kanji, cut out of the full relationship graph as an
//! edge-induced subgraph — a node survives iff it is in the union, an edge
//! survives iff both its endpoints survive.

use vstd::prelude::*;
use crate::graph::{lemma_spec_edges_wf, spec_edges_upto, Edge, KGraph, DB};
use crate::query::{ancestor_set, family_set, index_set, union_idx, contains_idx};
use crate::store::{key_index, seq_contains_key, EntryV};
use crate::Kanji;

verus! {

/// The node set the filtered graph keeps for the focus list `ks`: for every
/// focus kanji with a record, its whole family (descendants and their other
/// parents' chains); for every focus kanji, its ancestors. Focus kanji
/// without a record contribute nothing.
pub open spec fn family_union(edges: Seq<Edge>, s: Seq<EntryV>, ks: Seq<char>) -> Set<int>
    decreases ks.len(),
{
    if ks.len() == 0 {
        Set::<int>::empty()
    } else {
        let rest = family_union(edges, s, ks.drop_last());
        let k = ks.last();
        let with_family = if seq_contains_key(s, k) {
            rest.union(family_set(edges, key_index(s, k)))
        } else {
            rest
        };
        with_family.union(ancestor_set(edges, s, k))
    }
}

/// How many kept node indices lie below `i`: the new index of node `i` in
/// the filtered graph.
pub open spec fn rank_of(kept: Set<int>, i: int) -> int
    decreases i,
{
    if i <= 0 {
        0
    } else {
        rank_of(kept, i - 1) + if kept.contains(i - 1) {
            1int
        } else {
            0int
        }
    }
}

/// The kept nodes of the first `n`, in original index order.
pub open spec fn sub_nodes(nodes: Seq<char>, kept: Set<int>, n: int) -> Seq<char>
    decreases n,
{
    if n <= 0 {
        Seq::<char>::empty()
    } else {
        sub_nodes(nodes, kept, n - 1) + if kept.contains(n - 1) {
            seq![nodes[n - 1]]
        } else {
            Seq::<char>::empty()
        }
    }
}

/// An edge rewritten to the filtered graph's node indices.
pub open spec fn remap(kept: Set<int>, e: Edge) -> Edge {
    Edge {
        from: rank_of(kept, e.from as int) as usize,
        to: rank_of(kept, e.to as int) as usize,
        label: e.label,
    }
}

/// The surviving edges, in original order: exactly those whose two
/// endpoints are both kept, rewritten to the filtered graph's indices.
pub open spec fn sub_edges(edges: Seq<Edge>, kept: Set<int>) -> Seq<Edge>
    decreases edges.len(),
{
    if edges.len() == 0 {
        Seq::<Edge>::empty()
    } else {
        let rest = sub_edges(edges.drop_last(), kept);
        let e = edges.last();
        if kept.contains(e.from as int) && kept.contains(e.to as int) {
            rest + seq![remap(kept, e)]
        } else {
            rest
        }
    }
}

/// Ranks never decrease with the index, and a kept index is ranked strictly
/// below any later bound.
pub proof fn lemma_rank_mono(kept: Set<int>, i: int, j: int)
    requires
        0 <= i <= j,
    ensures
        rank_of(kept, i) <= rank_of(kept, j),
        kept.contains(i) && i < j ==> rank_of(kept, i) + 1 <= rank_of(kept, j),
        0 <= rank_of(kept, i) <= i,
    decreases j - i,
{
    if i == j {
        lemma_rank_nonneg(kept, i);
    } else {
        lemma_rank_mono(kept, i, j - 1);
        lemma_rank_nonneg(kept, i);
    }
}

/// A rank lies between 0 and the index.
pub proof fn lemma_rank_nonneg(kept: Set<int>, i: int)
    ensures
        i >= 0 ==> 0 <= rank_of(kept, i) <= i,
    decreases i,
{
    if i > 0 {
        lemma_rank_nonneg(kept, i - 1);
    }
}

/// Edge induction: every edge of the filtered graph is some original edge
/// with both endpoints kept, rewritten to the new indices — the filtered
/// graph never holds an edge whose endpoint was filtered out — and,
/// conversely, every original edge with both endpoints kept survives.
pub proof fn lemma_sub_edges_induced(edges: Seq<Edge>, kept: Set<int>)
    ensures
        forall|i: int|
            0 <= i < sub_edges(edges, kept).len() ==> exists|j: int|
                0 <= j < edges.len() && kept.contains((#[trigger] edges[j]).from as int)
                    && kept.contains(edges[j].to as int) && (#[trigger] sub_edges(edges, kept)[i])
                    == remap(kept, edges[j]),
        forall|j: int|
            0 <= j < edges.len() && kept.contains((#[trigger] edges[j]).from as int)
                && kept.contains(edges[j].to as int) ==> sub_edges(edges, kept).contains(
                remap(kept, edges[j]),
            ),
    decreases edges.len(),
{
    if edges.len() > 0 {
        let front = edges.drop_last();
        lemma_sub_edges_induced(front, kept);
        let e = edges.last();
        let rest = sub_edges(front, kept);
        assert forall|i: int| 0 <= i < sub_edges(edges, kept).len() implies exists|j: int|
            0 <= j < edges.len() && kept.contains((#[trigger] edges[j]).from as int)
                && kept.contains(edges[j].to as int) && (#[trigger] sub_edges(edges, kept)[i])
                == remap(kept, edges[j]) by {
            if i < rest.len() {
                let j = choose|j: int|
                    0 <= j < front.len() && kept.contains((#[trigger] front[j]).from as int)
                        && kept.contains(front[j].to as int) && rest[i] == remap(kept, front[j]);
                assert(edges[j] == front[j]);
                assert(sub_edges(edges, kept)[i] == rest[i]);
            } else {
                assert(kept.contains(e.from as int) && kept.contains(e.to as int));
                assert(edges[edges.len() - 1] == e);
                assert(sub_edges(edges, kept)[i] == remap(kept, e));
            }
        }
        assert forall|j: int|
            0 <= j < edges.len() && kept.contains((#[trigger] edges[j]).from as int)
                && kept.contains(edges[j].to as int) implies sub_edges(edges, kept).contains(
            remap(kept, edges[j]),
        ) by {
            if j < edges.len() - 1 {
                assert(front[j] == edges[j]);
                assert(rest.contains(remap(kept, front[j])));
                let w = choose|w: int| 0 <= w < rest.len() && rest[w] == remap(kept, front[j]);
                assert(sub_edges(edges, kept)[w] == remap(kept, edges[j]));
            } else {
                assert(kept.contains(e.from as int) && kept.contains(e.to as int));
                assert(sub_edges(edges, kept)[sub_edges(edges, kept).len() - 1] == remap(kept, e));
            }
        }
    }
}

impl DB {
    /// Hone in on specific kanji families: keep the union of the families
    /// of the given kanji (for those with a record) and of their ancestor
    /// sets, and cut the edge-induced subgraph out of the relationship
    /// graph. Unknown focus kanji are silently dropped from consideration.
    pub fn filtered_graph(&self, ks: Vec<Kanji>) -> (g: KGraph)
        requires
            self.wf(),
        ensures
            g.wf(),
            g.node_seq() == sub_nodes(
                self.graph.node_seq(),
                family_union(
                    self.graph.edges@,
                    self.entries.entries(),
                    ks@.map_values(|k: Kanji| k.spec_get()),
                ),
                self.graph.nodes@.len() as int,
            ),
            g.edges@ == sub_edges(
                self.graph.edges@,
                family_union(
                    self.graph.edges@,
                    self.entries.entries(),
                    ks@.map_values(|k: Kanji| k.spec_get()),
                ),
            ),
    {
        let n = self.graph.nodes.len();
        let ghost s = self.entries.entries();
        let ghost edges_v = self.graph.edges@;
        let ghost kchars = ks@.map_values(|k: Kanji| k.spec_get());

        // The union of families and ancestor sets over the focus list.
        let mut acc: Vec<usize> = Vec::new();
        let mut i: usize = 0;
        proof {
            assert(index_set(acc@) =~= family_union(edges_v, s, kchars.subrange(0, 0))) by {
                assert forall|y: int| !index_set(acc@).contains(y) by {
                    if index_set(acc@).contains(y) {
                        let w = choose|w: int| 0 <= w < acc@.len() && (acc@[w]) as int == y;
                    }
                }
            }
        }
        while i < ks.len()
            invariant
                self.wf(),
                n == self.graph.nodes@.len(),
                s == self.entries.entries(),
                edges_v == self.graph.edges@,
                kchars == ks@.map_values(|k: Kanji| k.spec_get()),
                i <= ks@.len(),
                acc@.no_duplicates(),
                forall|j: int| 0 <= j < acc@.len() ==> (#[trigger] acc@[j]) < n,
                index_set(acc@) == family_union(edges_v, s, kchars.subrange(0, i as int)),
            decreases ks@.len() - i,
        {
            let k = ks[i];
            proof {
                assert(self.graph.node_seq().len() == self.graph.nodes@.len());
                assert(s.map_values(|e: EntryV| e.kanji).len() == s.len());
                assert(kchars[i as int] == k.spec_get());
                assert(kchars.subrange(0, i + 1).drop_last() =~= kchars.subrange(0, i as int));
                assert(kchars.subrange(0, i + 1).last() == k.spec_get());
            }
            let ghost acc_before = index_set(acc@);
            let acc2 = match self.entries.index_of(k) {
                Some(kix) => {
                    let fam = self.all_children(kix);
                    union_idx(acc, &fam)
                },
                None => acc,
            };
            let anc = self.all_parents(k);
            let acc3 = union_idx(acc2, &anc);
            acc = acc3;
            proof {
                assert(index_set(acc@) =~= family_union(edges_v, s, kchars.subrange(0, i + 1)));
            }
            i = i + 1;
        }
        proof {
            assert(kchars.subrange(0, kchars.len() as int) =~= kchars);
        }
        let ghost kept = family_union(edges_v, s, kchars);

        // Cut out the kept nodes, remembering each original node's new index.
        let mut nodes: Vec<Kanji> = Vec::new();
        let mut ranks: Vec<usize> = Vec::new();
        let mut j: usize = 0;
        while j < n
            invariant
                self.wf(),
                n == self.graph.nodes@.len(),
                kept == family_union(edges_v, s, kchars),
                index_set(acc@) == kept,
                j <= n,
                ranks@.len() == j,
                nodes@.len() == rank_of(kept, j as int),
                forall|x: int| 0 <= x < j ==> (#[trigger] ranks@[x]) as int == rank_of(kept, x),
                nodes@.map_values(|k: Kanji| k.spec_get()) == sub_nodes(
                    self.graph.node_seq(),
                    kept,
                    j as int,
                ),
            decreases n - j,
        {
            proof {
                lemma_rank_nonneg(kept, j as int);
            }
            ranks.push(nodes.len());
            if contains_idx(&acc, j) {
                nodes.push(self.graph.nodes[j]);
                proof {
                    assert(self.graph.node_seq()[j as int] == self.graph.nodes@[j as int].spec_get());
                    assert(nodes@.map_values(|k: Kanji| k.spec_get()) =~= sub_nodes(
                        self.graph.node_seq(),
                        kept,
                        j + 1,
                    ));
                }
            } else {
                proof {
                    assert(nodes@.map_values(|k: Kanji| k.spec_get()) =~= sub_nodes(
                        self.graph.node_seq(),
                        kept,
                        j + 1,
                    ));
                }
            }
            j = j + 1;
        }

        // Keep exactly the edges between kept nodes, rewritten to the new
        // indices.
        proof {
            lemma_spec_edges_wf(s, s.len() as int);
            assert(self.graph.node_seq().len() == self.graph.nodes@.len());
            assert(s.map_values(|e: EntryV| e.kanji).len() == s.len());
            assert forall|jj: int| 0 <= jj < edges_v.len() implies (#[trigger] edges_v[jj]).from
                < n && edges_v[jj].to < n by {
                assert(edges_v[jj] == spec_edges_upto(s, s.len() as int)[jj]);
            }
        }
        let full_edges = &self.graph.edges;
        let mut edges: Vec<Edge> = Vec::new();
        let mut m: usize = 0;
        while m < full_edges.len()
            invariant
                n == self.graph.nodes@.len(),
                edges_v == self.graph.edges@,
                full_edges@ == edges_v,
                kept == family_union(edges_v, s, kchars),
                index_set(acc@) == kept,
                m <= edges_v.len(),
                ranks@.len() == n,
                nodes@.len() == rank_of(kept, n as int),
                forall|x: int| 0 <= x < n ==> (#[trigger] ranks@[x]) as int == rank_of(kept, x),
                forall|jj: int|
                    0 <= jj < edges_v.len() ==> (#[trigger] edges_v[jj]).from < n
                        && edges_v[jj].to < n,
                edges@ == sub_edges(edges_v.subrange(0, m as int), kept),
            decreases edges_v.len() - m,
        {
            let e = full_edges[m];
            proof {
                assert(edges_v.subrange(0, m + 1).drop_last() =~= edges_v.subrange(0, m as int));
                assert(edges_v.subrange(0, m + 1).last() == e);
            }
            let keep_from = contains_idx(&acc, e.from);
            let keep_to = contains_idx(&acc, e.to);
            if keep_from && keep_to {
                let ne = Edge { from: ranks[e.from], to: ranks[e.to], label: e.label };
                proof {
                    assert(ne == remap(kept, e));
                }
                edges.push(ne);
                proof {
                    assert(edges@ =~= sub_edges(edges_v.subrange(0, m + 1), kept));
                }
            } else {
                proof {
                    assert(edges@ =~= sub_edges(edges_v.subrange(0, m + 1), kept));
                }
            }
            m = m + 1;
        }
        proof {
            assert(edges_v.subrange(0, edges_v.len() as int) =~= edges_v);
        }

        let g = KGraph { nodes, edges };
        proof {
            lemma_sub_edges_induced(edges_v, kept);
            assert forall|x: int| 0 <= x < g.edges@.len() implies (#[trigger] g.edges@[x]).from
                < g.nodes@.len() && g.edges@[x].to < g.nodes@.len() by {
                let w = choose|w: int|
                    0 <= w < edges_v.len() && kept.contains((#[trigger] edges_v[w]).from as int)
                        && kept.contains(edges_v[w].to as int) && (#[trigger] sub_edges(
                        edges_v,
                        kept,
                    )[x]) == remap(kept, edges_v[w]);
                lemma_rank_mono(kept, edges_v[w].from as int, n as int);
                lemma_rank_mono(kept, edges_v[w].to as int, n as int);
            }
        }
        g
    }
}

} // verus!
