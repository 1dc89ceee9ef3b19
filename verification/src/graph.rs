//! The relationship graph: one node per stored entry (node identity is the
//! entry's position in the key-sorted store), and one directed edge per
//! (parent, child) pair where both ends have an entry, labeled with the
//! phonetic classification of the two first readings.

use vstd::prelude::*;
use crate::Kanji;
use crate::inherit::{classify, spec_classify, Inherit};
use crate::store::{key_index, lemma_key_index, seq_contains_key, Entry, EntryV, Store};

verus! {

/// A directed edge from a parent's node to a child's node, labeled with the
/// classified relationship between their readings.
#[derive(Clone, Copy, PartialEq, Eq, Structural)]
pub struct Edge {
    pub from: usize,
    pub to: usize,
    pub label: Inherit,
}

/// A directed graph over kanji: `nodes[i]` is the kanji at node index `i`,
/// and every edge joins two node indices.
pub struct KGraph {
    pub nodes: Vec<Kanji>,
    pub edges: Vec<Edge>,
}

impl KGraph {
    /// The node characters, in node-index order.
    pub open spec fn node_seq(&self) -> Seq<char> {
        self.nodes@.map_values(|k: Kanji| k.spec_get())
    }

    /// Every edge endpoint is a node index.
    pub open spec fn wf(&self) -> bool {
        forall|i: int|
            0 <= i < self.edges@.len() ==> (#[trigger] self.edges@[i]).from < self.nodes@.len()
                && self.edges@[i].to < self.nodes@.len()
    }
}

/// The edges contributed by one child entry at index `ci`, one per parent
/// reference in `oya` (in reference order) whose kanji has a record of its
/// own; a reference to a missing kanji contributes nothing.
pub open spec fn edges_from_oya(s: Seq<EntryV>, ci: int, oya: Seq<char>) -> Seq<Edge>
    decreases oya.len(),
{
    if oya.len() == 0 {
        Seq::<Edge>::empty()
    } else {
        let rest = edges_from_oya(s, ci, oya.drop_last());
        let k = oya.last();
        if seq_contains_key(s, k) {
            rest + seq![
                Edge {
                    from: key_index(s, k) as usize,
                    to: ci as usize,
                    label: spec_classify(s[ci].onyomi, s[key_index(s, k)].onyomi),
                },
            ]
        } else {
            rest
        }
    }
}

/// All edges of the relationship graph built over the first `n` entries:
/// child entries contribute their edges in store order.
pub open spec fn spec_edges_upto(s: Seq<EntryV>, n: int) -> Seq<Edge>
    decreases n,
{
    if n <= 0 {
        Seq::<Edge>::empty()
    } else {
        spec_edges_upto(s, n - 1) + edges_from_oya(s, n - 1, s[n - 1].oya)
    }
}

/// All edges of the relationship graph over a record sequence.
pub open spec fn spec_edges(s: Seq<EntryV>) -> Seq<Edge> {
    spec_edges_upto(s, s.len() as int)
}

/// Every edge from one child's parent list stays within bounds.
proof fn lemma_edges_from_oya_wf(s: Seq<EntryV>, ci: int, oya: Seq<char>)
    requires
        0 <= ci < s.len(),
    ensures
        forall|i: int|
            0 <= i < edges_from_oya(s, ci, oya).len() ==> (#[trigger] edges_from_oya(
                s,
                ci,
                oya,
            )[i]).from < s.len() && edges_from_oya(s, ci, oya)[i].to < s.len(),
    decreases oya.len(),
{
    if oya.len() > 0 {
        lemma_edges_from_oya_wf(s, ci, oya.drop_last());
        let k = oya.last();
        if seq_contains_key(s, k) {
            lemma_key_index(s, k);
        }
    }
}

/// Every edge of the built graph stays within bounds.
pub proof fn lemma_spec_edges_wf(s: Seq<EntryV>, n: int)
    requires
        n <= s.len(),
    ensures
        forall|i: int|
            0 <= i < spec_edges_upto(s, n).len() ==> (#[trigger] spec_edges_upto(s, n)[i]).from
                < s.len() && spec_edges_upto(s, n)[i].to < s.len(),
    decreases n,
{
    if n > 0 {
        lemma_spec_edges_wf(s, n - 1);
        lemma_edges_from_oya_wf(s, n - 1, s[n - 1].oya);
    }
}

/// Edge soundness: every edge of the built graph runs from the record of a
/// kanji named in the target record's parent list to that target, carries
/// the classification of the two first readings, and both ends have records.
/// In particular a parent reference to a kanji with no record produces no
/// edge at all: every edge's source has one.
pub proof fn lemma_edges_sound(s: Seq<EntryV>, n: int)
    requires
        n <= s.len(),
        s.len() <= usize::MAX,
    ensures
        forall|i: int|
            0 <= i < spec_edges_upto(s, n).len() ==> {
                let e = #[trigger] spec_edges_upto(s, n)[i];
                &&& 0 <= e.from < s.len()
                &&& 0 <= e.to < n
                &&& s[e.to as int].oya.contains(s[e.from as int].kanji)
                &&& e.label == spec_classify(s[e.to as int].onyomi, s[e.from as int].onyomi)
            },
    decreases n,
{
    if n > 0 {
        lemma_edges_sound(s, n - 1);
        lemma_edges_from_oya_sound(s, n - 1, s[n - 1].oya);
        assert forall|i: int| 0 <= i < spec_edges_upto(s, n).len() implies {
            let e = #[trigger] spec_edges_upto(s, n)[i];
            &&& 0 <= e.from < s.len()
            &&& 0 <= e.to < n
            &&& s[e.to as int].oya.contains(s[e.from as int].kanji)
            &&& e.label == spec_classify(s[e.to as int].onyomi, s[e.from as int].onyomi)
        } by {
            let front = spec_edges_upto(s, n - 1);
            if i < front.len() {
                assert(spec_edges_upto(s, n)[i] == front[i]);
            } else {
                assert(spec_edges_upto(s, n)[i] == edges_from_oya(s, n - 1, s[n - 1].oya)[i
                    - front.len()]);
            }
        }
    }
}

/// Every edge one child contributes points at that child, starts at a
/// record of a kanji in the given parent list, and carries the right label.
proof fn lemma_edges_from_oya_sound(s: Seq<EntryV>, ci: int, oya: Seq<char>)
    requires
        0 <= ci < s.len(),
        s.len() <= usize::MAX,
        oya.len() <= s[ci].oya.len(),
        forall|i: int| 0 <= i < oya.len() ==> oya[i] == s[ci].oya[i],
    ensures
        forall|i: int|
            0 <= i < edges_from_oya(s, ci, oya).len() ==> {
                let e = #[trigger] edges_from_oya(s, ci, oya)[i];
                &&& 0 <= e.from < s.len()
                &&& e.to == ci
                &&& s[ci].oya.contains(s[e.from as int].kanji)
                &&& e.label == spec_classify(s[ci].onyomi, s[e.from as int].onyomi)
            },
    decreases oya.len(),
{
    if oya.len() > 0 {
        lemma_edges_from_oya_sound(s, ci, oya.drop_last());
        let k = oya.last();
        if seq_contains_key(s, k) {
            lemma_key_index(s, k);
            let rest = edges_from_oya(s, ci, oya.drop_last());
            assert forall|i: int| 0 <= i < edges_from_oya(s, ci, oya).len() implies {
                let e = #[trigger] edges_from_oya(s, ci, oya)[i];
                &&& 0 <= e.from < s.len()
                &&& e.to == ci
                &&& s[ci].oya.contains(s[e.from as int].kanji)
                &&& e.label == spec_classify(s[ci].onyomi, s[e.from as int].onyomi)
            } by {
                if i < rest.len() {
                    assert(edges_from_oya(s, ci, oya)[i] == rest[i]);
                } else {
                    assert(0 <= key_index(s, k) < s.len());
                    let ne = Edge {
                        from: key_index(s, k) as usize,
                        to: ci as usize,
                        label: spec_classify(s[ci].onyomi, s[key_index(s, k)].onyomi),
                    };
                    assert(edges_from_oya(s, ci, oya) == rest + seq![ne]);
                    assert(i == rest.len());
                    assert(edges_from_oya(s, ci, oya)[i] == ne);
                    assert(ne.from as int == key_index(s, k));
                    assert(s[ne.from as int].kanji == k);
                    assert(s[ci].oya[oya.len() - 1] == k);
                    assert(s[ci].oya.contains(k));
                }
            }
        } else {
            assert(edges_from_oya(s, ci, oya) == edges_from_oya(s, ci, oya.drop_last()));
        }
    }
}

/// An in-memory database: the keyed entry store together with the
/// relationship graph built from it. Node indices are assigned in store
/// order (ascending by kanji), so they are reproducible across runs.
pub struct DB {
    pub entries: Store,
    pub graph: KGraph,
}

impl DB {
    /// The database invariant: the store is well formed, the graph has one
    /// node per entry in store order, and the edge list is exactly the built
    /// edge list.
    pub open spec fn wf(&self) -> bool {
        &&& self.entries.wf()
        &&& self.graph.node_seq() == self.entries.entries().map_values(|e: EntryV| e.kanji)
        &&& self.graph.edges@ == spec_edges(self.entries.entries())
    }

    /// Build the database from a store: one node per entry in store order;
    /// for every entry and every parent reference with a record of its own,
    /// one directed edge from the parent's node to the child's node, labeled
    /// by the classifier applied to the two first readings. Parent
    /// references to missing kanji are silently skipped, never an error.
    pub fn new(entries: Store) -> (db: DB)
        requires
            entries.wf(),
        ensures
            db.wf(),
            db.entries == entries,
    {
        let ghost s = entries.entries();
        let n = entries.list.len();
        let mut nodes: Vec<Kanji> = Vec::new();
        let mut i: usize = 0;
        while i < n
            invariant
                n == s.len(),
                s == entries.entries(),
                i <= n,
                nodes@.len() == i,
                forall|j: int| 0 <= j < i ==> (#[trigger] nodes@[j]).spec_get() == s[j].kanji,
            decreases n - i,
        {
            nodes.push(entries.list[i].kanji);
            i = i + 1;
        }
        proof {
            assert(nodes@.map_values(|k: Kanji| k.spec_get()) =~= s.map_values(
                |e: EntryV| e.kanji,
            ));
        }

        let mut edges: Vec<Edge> = Vec::new();
        let mut ci: usize = 0;
        while ci < n
            invariant
                n == s.len(),
                s == entries.entries(),
                entries.wf(),
                ci <= n,
                edges@ == spec_edges_upto(s, ci as int),
            decreases n - ci,
        {
            let e = &entries.list[ci];
            proof {
                assert(s[ci as int] == e@);
            }
            let ghost oya_chars = e@.oya;
            let mut j: usize = 0;
            while j < e.oya.len()
                invariant
                    n == s.len(),
                    s == entries.entries(),
                    entries.wf(),
                    ci < n,
                    s[ci as int] == e@,
                    oya_chars == e@.oya,
                    e == &entries.list[ci as int],
                    j <= oya_chars.len(),
                    edges@ == spec_edges_upto(s, ci as int) + edges_from_oya(
                        s,
                        ci as int,
                        oya_chars.subrange(0, j as int),
                    ),
                decreases oya_chars.len() - j,
            {
                let o = e.oya[j];
                proof {
                    assert(oya_chars[j as int] == o.spec_get());
                    assert(oya_chars.subrange(0, j + 1).drop_last() =~= oya_chars.subrange(
                        0,
                        j as int,
                    ));
                    assert(oya_chars.subrange(0, j + 1).last() == o.spec_get());
                }
                match entries.index_of(o) {
                    Some(pi) => {
                        let parent = &entries.list[pi];
                        proof {
                            assert(s[pi as int] == parent@);
                        }
                        let label = classify(&e.onyomi, &parent.onyomi);
                        edges.push(Edge { from: pi, to: ci, label });
                        proof {
                            assert(edges@ =~= spec_edges_upto(s, ci as int) + edges_from_oya(
                                s,
                                ci as int,
                                oya_chars.subrange(0, j + 1),
                            ));
                        }
                    },
                    None => {
                        proof {
                            assert(edges@ =~= spec_edges_upto(s, ci as int) + edges_from_oya(
                                s,
                                ci as int,
                                oya_chars.subrange(0, j + 1),
                            ));
                        }
                    },
                }
                j = j + 1;
            }
            proof {
                assert(oya_chars.subrange(0, oya_chars.len() as int) =~= oya_chars);
                assert(edges@ =~= spec_edges_upto(s, ci + 1));
            }
            ci = ci + 1;
        }

        let db = DB { entries, graph: KGraph { nodes, edges } };
        db
    }

    /// The node index of a single focus kanji. A caller that picks one
    /// focus kanji must treat its absence as an error, so an unknown kanji
    /// yields `Error::Missing` rather than an empty result.
    pub fn node_index(&self, k: Kanji) -> (r: Result<usize, crate::error::Error>)
        requires
            self.wf(),
        ensures
            match r {
                Ok(i) => self.entries.spec_contains_key(k.spec_get()) && i as int == key_index(
                    self.entries.entries(),
                    k.spec_get(),
                ),
                Err(e) => !self.entries.spec_contains_key(k.spec_get()) && e == crate::error::Error::Missing(k),
            },
    {
        match self.entries.index_of(k) {
            Some(i) => Ok(i),
            None => Err(crate::error::Error::Missing(k)),
        }
    }

    /// The full entry behind a node index: every node of the built graph has
    /// one, and it is the entry at the same position of the store.
    pub fn entry(&self, nix: usize) -> (r: Option<&Entry>)
        requires
            self.wf(),
        ensures
            match r {
                Some(e) => nix < self.entries.entries().len() && e@ == self.entries.entries()[nix as int],
                None => nix >= self.entries.entries().len(),
            },
    {
        if nix < self.entries.list.len() {
            Some(&self.entries.list[nix])
        } else {
            None
        }
    }
}

} // verus!
