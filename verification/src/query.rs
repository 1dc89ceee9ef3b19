//! Reachability queries over the relationship graph: descendant and ancestor
//! node sets computed by a visited-set-guarded traversal, so they terminate
//! on any graph the builder can produce, cycles included.

use vstd::prelude::*;
use crate::graph::{lemma_spec_edges_wf, spec_edges_upto, Edge, DB};
use crate::store::{key_index, seq_contains_key, EntryV};
use crate::Kanji;
use vstd::set_lib::{lemma_int_range, lemma_len_subset, set_int_range};

verus! {

/// The node an edge is left from when walking in the given direction:
/// walking down follows an edge at its parent, walking up at its child.
pub open spec fn src_of(e: Edge, up: bool) -> int {
    if up {
        e.to as int
    } else {
        e.from as int
    }
}

/// The node an edge arrives at when walking in the given direction.
pub open spec fn dst_of(e: Edge, up: bool) -> int {
    if up {
        e.from as int
    } else {
        e.to as int
    }
}

/// One step from node `x` to node `y` along some edge, in the given
/// direction.
pub open spec fn step(edges: Seq<Edge>, up: bool, x: int, y: int) -> bool {
    exists|i: int|
        0 <= i < edges.len() && src_of(#[trigger] edges[i], up) == x && dst_of(edges[i], up) == y
}

/// `s` holds the seeds and is closed under steps in the given direction.
pub open spec fn closed_under(edges: Seq<Edge>, up: bool, seeds: Set<int>, s: Set<int>) -> bool {
    &&& seeds.subset_of(s)
    &&& forall|x: int, y: int|
        s.contains(x) && #[trigger] step(edges, up, x, y) ==> s.contains(y)
}

/// The nodes reachable from the seeds by steps in the given direction: the
/// least set that holds the seeds and is closed under steps.
pub open spec fn reach(edges: Seq<Edge>, up: bool, seeds: Set<int>) -> Set<int> {
    Set::new(
        |x: int|
            forall|s: Set<int>| closed_under(edges, up, seeds, s) ==> #[trigger] s.contains(x),
    )
}

/// The reachable set holds the seeds.
pub proof fn lemma_reach_seeds(edges: Seq<Edge>, up: bool, seeds: Set<int>)
    ensures
        seeds.subset_of(reach(edges, up, seeds)),
{
    assert forall|x: int| seeds.contains(x) implies reach(edges, up, seeds).contains(x) by {
        assert forall|s: Set<int>| closed_under(edges, up, seeds, s) implies #[trigger] s.contains(
            x,
        ) by {
            assert(seeds.subset_of(s));
        }
    }
}

/// The reachable set is closed under steps.
pub proof fn lemma_reach_closed(edges: Seq<Edge>, up: bool, seeds: Set<int>)
    ensures
        forall|x: int, y: int|
            reach(edges, up, seeds).contains(x) && #[trigger] step(edges, up, x, y) ==> reach(
                edges,
                up,
                seeds,
            ).contains(y),
{
    assert forall|x: int, y: int|
        reach(edges, up, seeds).contains(x) && #[trigger] step(edges, up, x, y) implies reach(
        edges,
        up,
        seeds,
    ).contains(y) by {
        assert forall|s: Set<int>| closed_under(edges, up, seeds, s) implies #[trigger] s.contains(
            y,
        ) by {
            assert(s.contains(x));
        }
    }
}

/// The reachable set is below every closed set: it is the least one.
pub proof fn lemma_reach_least(edges: Seq<Edge>, up: bool, seeds: Set<int>, s: Set<int>)
    requires
        closed_under(edges, up, seeds, s),
    ensures
        reach(edges, up, seeds).subset_of(s),
{
}

/// The set of node indices a list holds.
pub open spec fn index_set(s: Seq<usize>) -> Set<int> {
    Set::new(|x: int| exists|i: int| 0 <= i < s.len() && (#[trigger] s[i]) as int == x)
}

/// A duplicate-free list of indices below `n` has at most `n` elements.
proof fn lemma_unique_bounded_len(s: Seq<usize>, n: int)
    requires
        s.no_duplicates(),
        forall|i: int| 0 <= i < s.len() ==> (#[trigger] s[i]) < n,
        n >= 0,
    ensures
        s.len() <= n,
{
    let m = s.map_values(|x: usize| x as int);
    assert(m.no_duplicates()) by {
        assert forall|i: int, j: int| 0 <= i < j < m.len() implies m[i] != m[j] by {
            assert(s[i] != s[j]);
        }
    }
    m.unique_seq_to_set();
    assert(m.to_set().subset_of(set_int_range(0, n))) by {
        assert forall|x: int| m.to_set().contains(x) implies set_int_range(0, n).contains(x) by {
            let i = choose|i: int| 0 <= i < m.len() && m[i] == x;
            assert(s[i] < n);
        }
    }
    lemma_int_range(0, n);
    lemma_len_subset(m.to_set(), set_int_range(0, n));
}

/// Is `x` one of the indices in the list?
pub fn contains_idx(v: &Vec<usize>, x: usize) -> (b: bool)
    ensures
        b == index_set(v@).contains(x as int),
{
    let mut i: usize = 0;
    while i < v.len()
        invariant
            i <= v@.len(),
            forall|j: int| 0 <= j < i ==> (#[trigger] v@[j]) != x,
        decreases v@.len() - i,
    {
        if v[i] == x {
            assert(v@[i as int] as int == x as int);
            return true;
        }
        i = i + 1;
    }
    assert(!index_set(v@).contains(x as int)) by {
        if index_set(v@).contains(x as int) {
            let i = choose|i: int| 0 <= i < v@.len() && (v@[i]) as int == x as int;
            assert(v@[i] == x);
        }
    }
    false
}

/// Walk the graph from the seed nodes in the given direction, guarding every
/// node with a visited set: the result lists, without duplicates, exactly
/// the nodes reachable from the seeds. Terminates on any graph, cycles
/// included.
pub fn traverse(n: usize, edges: &Vec<Edge>, seeds: Vec<usize>, up: bool) -> (r: Vec<usize>)
    requires
        forall|i: int|
            0 <= i < edges@.len() ==> (#[trigger] edges@[i]).from < n && edges@[i].to < n,
        forall|i: int| 0 <= i < seeds@.len() ==> (#[trigger] seeds@[i]) < n,
    ensures
        r@.no_duplicates(),
        forall|i: int| 0 <= i < r@.len() ==> (#[trigger] r@[i]) < n,
        index_set(r@) == reach(edges@, up, index_set(seeds@)),
{
    let ghost seed_set = index_set(seeds@);
    let ghost rset = reach(edges@, up, seed_set);
    proof {
        lemma_reach_seeds(edges@, up, seed_set);
        lemma_reach_closed(edges@, up, seed_set);
    }
    let mut visited: Vec<bool> = Vec::new();
    let mut i: usize = 0;
    while i < n
        invariant
            visited@.len() == i,
            i <= n,
            forall|j: int| 0 <= j < i ==> !(#[trigger] visited@[j]),
        decreases n - i,
    {
        visited.push(false);
        i = i + 1;
    }

    let mut result: Vec<usize> = Vec::new();
    let mut stack = seeds;
    while stack.len() > 0
        invariant
            visited@.len() == n,
            seed_set == index_set(seeds@),
            rset == reach(edges@, up, seed_set),
            forall|j: int|
                0 <= j < edges@.len() ==> (#[trigger] edges@[j]).from < n && edges@[j].to < n,
            forall|j: int| 0 <= j < result@.len() ==> (#[trigger] result@[j]) < n,
            forall|j: int| 0 <= j < stack@.len() ==> (#[trigger] stack@[j]) < n,
            result@.no_duplicates(),
            result@.len() <= n,
            forall|x: int| 0 <= x < n ==> (visited@[x] <==> index_set(result@).contains(x)),
            index_set(result@).subset_of(rset),
            index_set(stack@).subset_of(rset),
            forall|x: int, y: int|
                index_set(result@).contains(x) && #[trigger] step(edges@, up, x, y) ==> index_set(
                    result@,
                ).contains(y) || index_set(stack@).contains(y),
            seed_set.subset_of(index_set(result@).union(index_set(stack@))),
        decreases n - result@.len(), stack@.len(),
    {
        let ghost stack0 = stack@;
        let ghost result0 = result@;
        let x = match stack.pop() {
            Some(x) => x,
            None => {
                // Unreachable: the loop condition holds.
                return result;
            },
        };
        proof {
            assert(x == stack0.last());
            assert(stack0[stack0.len() - 1] as int == x as int);
            assert(index_set(stack0).contains(x as int));
            // Dropping the popped element loses at most that element.
            assert forall|y: int|
                index_set(stack0).contains(y) && y != x as int implies index_set(
                stack@,
            ).contains(y) by {
                let i = choose|i: int| 0 <= i < stack0.len() && (stack0[i]) as int == y;
                assert(stack@[i] as int == y);
            }
            assert forall|y: int| index_set(stack@).contains(y) implies index_set(
                stack0,
            ).contains(y) by {
                let i = choose|i: int| 0 <= i < stack@.len() && (stack@[i]) as int == y;
                assert(stack0[i] as int == y);
            }
        }
        if !visited[x] {
            visited.set(x, true);
            proof {
                assert(!index_set(result0).contains(x as int));
                if result0.contains(x) {
                    let i = choose|i: int| 0 <= i < result0.len() && result0[i] == x;
                    assert(result0[i] as int == x as int);
                }
                assert(!result0.contains(x));
            }
            result.push(x);
            proof {
                assert forall|y: int| index_set(result@).contains(y) implies index_set(
                    result0,
                ).contains(y) || y == x as int by {
                    let i = choose|i: int| 0 <= i < result@.len() && (result@[i]) as int == y;
                    if i < result0.len() {
                        assert(result0[i] as int == y);
                    }
                }
                assert forall|y: int|
                    index_set(result0).contains(y) implies index_set(result@).contains(y) by {
                    let i = choose|i: int| 0 <= i < result0.len() && (result0[i]) as int == y;
                    assert(result@[i] as int == y);
                }
                assert(result@[result@.len() - 1] as int == x as int);
                assert(index_set(result@).contains(x as int));
                lemma_unique_bounded_len(result@, n as int);
            }
            // Push every node one step away from `x`.
            let ghost mid_stack = stack@;
            let mut j: usize = 0;
            while j < edges.len()
                invariant
                    visited@.len() == n,
                    x < n,
                    j <= edges@.len(),
                    forall|jj: int|
                        0 <= jj < edges@.len() ==> (#[trigger] edges@[jj]).from < n
                            && edges@[jj].to < n,
                    forall|jj: int| 0 <= jj < stack@.len() ==> (#[trigger] stack@[jj]) < n,
                    index_set(mid_stack).subset_of(index_set(stack@)),
                    index_set(stack@).subset_of(rset),
                    rset == reach(edges@, up, seed_set),
                    index_set(result@).contains(x as int),
                    index_set(result@).subset_of(rset),
                    forall|jj: int|
                        0 <= jj < j && src_of(#[trigger] edges@[jj], up) == x as int
                            ==> index_set(stack@).contains(dst_of(edges@[jj], up)),
                decreases edges@.len() - j,
            {
                let e = edges[j];
                let target = if up {
                    e.from
                } else {
                    e.to
                };
                let source = if up {
                    e.to
                } else {
                    e.from
                };
                if source == x {
                    let ghost stack_pre = stack@;
                    stack.push(target);
                    proof {
                        assert(stack@[stack@.len() - 1] as int == target as int);
                        assert(index_set(stack@).contains(dst_of(edges@[j as int], up)));
                        assert forall|y: int|
                            index_set(stack_pre).contains(y) implies index_set(stack@).contains(
                            y,
                        ) by {
                            let i = choose|i: int|
                                0 <= i < stack_pre.len() && (stack_pre[i]) as int == y;
                            assert(stack@[i] as int == y);
                        }
                        assert(index_set(stack@).subset_of(rset)) by {
                            assert forall|y: int| index_set(stack@).contains(y) implies rset.contains(
                                y,
                            ) by {
                                let i = choose|i: int|
                                    0 <= i < stack@.len() && (stack@[i]) as int == y;
                                if i < stack_pre.len() {
                                    assert(stack_pre[i] as int == y);
                                } else {
                                    assert(y == target as int);
                                    assert(step(edges@, up, x as int, y)) by {
                                        assert(src_of(edges@[j as int], up) == x as int);
                                        assert(dst_of(edges@[j as int], up) == y);
                                    }
                                    assert(rset.contains(x as int));
                                }
                            }
                        }
                    }
                }
                j = j + 1;
            }
            proof {
                // Every successor of `x` is now on the stack.
                assert forall|y: int| #[trigger]
                    step(edges@, up, x as int, y) implies index_set(stack@).contains(y) by {
                    let i = choose|i: int|
                        0 <= i < edges@.len() && src_of(edges@[i], up) == x as int && dst_of(
                            edges@[i],
                            up,
                        ) == y;
                }
                // The closure invariant: old entries keep their witnesses,
                // and the fresh node's successors are all stacked.
                assert forall|a: int, b: int|
                    index_set(result@).contains(a) && #[trigger] step(edges@, up, a, b) implies
                index_set(result@).contains(b) || index_set(stack@).contains(b) by {
                    if a == x as int {
                    } else {
                        assert(index_set(result0).contains(a));
                        if index_set(mid_stack).contains(b) {
                        } else if index_set(result0).contains(b) {
                        } else {
                            assert(index_set(stack0).contains(b));
                            assert(b == x as int);
                        }
                    }
                }
                assert(seed_set.subset_of(index_set(result@).union(index_set(stack@)))) by {
                    assert forall|y: int| seed_set.contains(y) implies index_set(result@).contains(
                        y,
                    ) || index_set(stack@).contains(y) by {
                        if index_set(stack0).contains(y) && y != x as int {
                            assert(index_set(mid_stack).contains(y));
                        }
                    }
                }
            }
        } else {
            proof {
                assert(index_set(result@).contains(x as int));
                assert forall|y: int| seed_set.contains(y) implies index_set(result@).contains(y)
                    || index_set(stack@).contains(y) by {
                    if index_set(stack0).contains(y) && y != x as int {
                    }
                }
                assert forall|a: int, b: int|
                    index_set(result@).contains(a) && #[trigger] step(edges@, up, a, b) implies
                index_set(result@).contains(b) || index_set(stack@).contains(b) by {
                    if index_set(stack0).contains(b) && b != x as int {
                    }
                }
            }
        }
    }
    proof {
        assert(index_set(stack@) =~= Set::<int>::empty()) by {
            assert forall|y: int| !index_set(stack@).contains(y) by {
                if index_set(stack@).contains(y) {
                    let i = choose|i: int| 0 <= i < stack@.len() && (stack@[i]) as int == y;
                }
            }
        }
        assert(closed_under(edges@, up, seed_set, index_set(result@))) by {
            assert forall|y: int| seed_set.contains(y) implies index_set(result@).contains(y) by {
                assert(index_set(result@).union(index_set(stack@)).contains(y));
            }
            assert forall|a: int, b: int|
                index_set(result@).contains(a) && #[trigger] step(edges@, up, a, b) implies
            index_set(result@).contains(b) by {
                assert(index_set(result@).contains(b) || index_set(stack@).contains(b));
            }
        }
        lemma_reach_least(edges@, up, seed_set, index_set(result@));
        assert(index_set(result@) =~= rset);
    }
    result
}

/// The lists' contents merged, without duplicates.
pub(crate) fn union_idx(a: Vec<usize>, b: &Vec<usize>) -> (r: Vec<usize>)
    requires
        a@.no_duplicates(),
    ensures
        r@.no_duplicates(),
        index_set(r@) == index_set(a@).union(index_set(b@)),
        forall|i: int|
            0 <= i < r@.len() ==> index_set(a@).contains((#[trigger] r@[i]) as int) || index_set(
                b@,
            ).contains(r@[i] as int),
{
    let ghost a0 = a@;
    let mut r = a;
    let mut i: usize = 0;
    while i < b.len()
        invariant
            i <= b@.len(),
            r@.no_duplicates(),
            index_set(a0).subset_of(index_set(r@)),
            forall|j: int|
                0 <= j < r@.len() ==> index_set(a0).contains((#[trigger] r@[j]) as int)
                    || index_set(b@).contains(r@[j] as int),
            forall|j: int| 0 <= j < i ==> index_set(r@).contains((#[trigger] b@[j]) as int),
        decreases b@.len() - i,
    {
        let x = b[i];
        proof {
            assert(b@[i as int] as int == x as int);
            assert(index_set(b@).contains(x as int));
        }
        if !contains_idx(&r, x) {
            let ghost r0 = r@;
            proof {
                if r0.contains(x) {
                    let w = choose|w: int| 0 <= w < r0.len() && r0[w] == x;
                    assert(r0[w] as int == x as int);
                }
            }
            r.push(x);
            proof {
                assert(r@[r@.len() - 1] as int == x as int);
                assert forall|y: int| index_set(r0).contains(y) implies index_set(r@).contains(
                    y,
                ) by {
                    let w = choose|w: int| 0 <= w < r0.len() && (r0[w]) as int == y;
                    assert(r@[w] as int == y);
                }
                assert forall|y: int| index_set(r@).contains(y) implies index_set(r0).contains(y)
                    || y == x as int by {
                    let w = choose|w: int| 0 <= w < r@.len() && (r@[w]) as int == y;
                    if w < r0.len() {
                        assert(r0[w] as int == y);
                    }
                }
            }
        }
        i = i + 1;
    }
    proof {
        assert(index_set(r@) =~= index_set(a0).union(index_set(b@))) by {
            assert forall|y: int| index_set(b@).contains(y) implies index_set(r@).contains(y) by {
                let w = choose|w: int| 0 <= w < b@.len() && (b@[w]) as int == y;
                assert(index_set(r@).contains(b@[w] as int));
            }
        }
    }
    r
}

/// Descendant closure: in a chain of edges from `a` down to `b` and from
/// `b` down to `c`, the family of `a` holds `a`, `b` and `c`.
pub proof fn lemma_descendant_chain(edges: Seq<Edge>, a: int, b: int, c: int)
    requires
        step(edges, false, a, b),
        step(edges, false, b, c),
    ensures
        family_set(edges, a).contains(a),
        family_set(edges, a).contains(b),
        family_set(edges, a).contains(c),
{
    let seeds = Set::<int>::empty().insert(a);
    let down = reach(edges, false, seeds);
    lemma_reach_seeds(edges, false, seeds);
    lemma_reach_closed(edges, false, seeds);
    assert(down.contains(a));
    assert(down.contains(b));
    assert(down.contains(c));
}

/// Ancestor closure: in the graph whose only edges form the chain from `a`
/// down to `b` down to `c`, the ancestor set of `c` is exactly `{a, b}` —
/// the chain's upper nodes, excluding `c` itself.
pub proof fn lemma_ancestor_chain(edges: Seq<Edge>, a: int, b: int, c: int)
    requires
        edges.len() == 2,
        edges[0].from as int == a,
        edges[0].to as int == b,
        edges[1].from as int == b,
        edges[1].to as int == c,
        a != b,
        b != c,
        a != c,
    ensures
        reach(edges, true, parent_seeds(edges, c)) == Set::<int>::empty().insert(a).insert(b),
{
    let seeds = parent_seeds(edges, c);
    assert(seeds =~= Set::<int>::empty().insert(b)) by {
        assert(step(edges, true, c, b)) by {
            assert(src_of(edges[1], true) == c && dst_of(edges[1], true) == b);
        }
        assert forall|z: int| seeds.contains(z) implies z == b by {
            let i = choose|i: int|
                0 <= i < edges.len() && src_of(#[trigger] edges[i], true) == c && dst_of(
                    edges[i],
                    true,
                ) == z;
            assert(i == 1);
        }
    }
    let r = reach(edges, true, seeds);
    lemma_reach_seeds(edges, true, seeds);
    lemma_reach_closed(edges, true, seeds);
    assert(r.contains(b));
    assert(r.contains(a)) by {
        assert(step(edges, true, b, a)) by {
            assert(src_of(edges[0], true) == b && dst_of(edges[0], true) == a);
        }
    }
    let ab = Set::<int>::empty().insert(a).insert(b);
    assert(closed_under(edges, true, seeds, ab)) by {
        assert forall|x: int, y: int|
            ab.contains(x) && #[trigger] step(edges, true, x, y) implies ab.contains(y) by {
            let i = choose|i: int|
                0 <= i < edges.len() && src_of(#[trigger] edges[i], true) == x && dst_of(
                    edges[i],
                    true,
                ) == y;
            if i == 0 {
                assert(x == b && y == a);
            } else {
                assert(x == c);
            }
        }
    }
    lemma_reach_least(edges, true, seeds, ab);
    assert(r =~= ab);
}

/// The nodes one upward step from any member of `down` other than `start`:
/// the parents that descending into a child pulls in.
pub open spec fn co_parent_seeds(edges: Seq<Edge>, down: Set<int>, start: int) -> Set<int> {
    Set::new(
        |z: int|
            exists|c: int| #[trigger] down.contains(c) && c != start && step(edges, true, c, z),
    )
}

/// The family of a node, the set its descendants query answers: the
/// downward closure of the node itself, together with the upward (ancestor)
/// closure of every other parent of every strict descendant. The start node
/// is always a member.
pub open spec fn family_set(edges: Seq<Edge>, start: int) -> Set<int> {
    let down = reach(edges, false, Set::<int>::empty().insert(start));
    down.union(reach(edges, true, co_parent_seeds(edges, down, start)))
}

/// The direct parents of a node: one upward step away.
pub open spec fn parent_seeds(edges: Seq<Edge>, kix: int) -> Set<int> {
    Set::new(|z: int| step(edges, true, kix, z))
}

/// The ancestors of a kanji: the upward closure of its direct parents,
/// which does not include the kanji itself unless a cycle leads back to it.
/// A kanji without a record has no ancestors.
pub open spec fn ancestor_set(edges: Seq<Edge>, s: Seq<EntryV>, k: char) -> Set<int> {
    if seq_contains_key(s, k) {
        reach(edges, true, parent_seeds(edges, key_index(s, k)))
    } else {
        Set::<int>::empty()
    }
}

impl DB {
    /// Walk down the graph to find all descendants of the node `kix`,
    /// including, for every descendant reached, the ancestor chains of its
    /// other parents: the whole family connected through any shared
    /// derivation. The result lists each family node index exactly once.
    pub fn all_children(&self, kix: usize) -> (r: Vec<usize>)
        requires
            self.wf(),
            kix < self.graph.nodes@.len(),
        ensures
            r@.no_duplicates(),
            forall|i: int| 0 <= i < r@.len() ==> (#[trigger] r@[i]) < self.graph.nodes@.len(),
            index_set(r@) == family_set(self.graph.edges@, kix as int),
    {
        let n = self.graph.nodes.len();
        let ghost s = self.entries.entries();
        proof {
            lemma_spec_edges_wf(s, s.len() as int);
            assert(self.graph.node_seq().len() == self.graph.nodes@.len());
            assert(s.map_values(|e: EntryV| e.kanji).len() == s.len());
            assert(self.graph.nodes@.len() == s.len());
            assert forall|jj: int| 0 <= jj < self.graph.edges@.len() implies (#[trigger] self.graph.edges@[jj]).from < n && self.graph.edges@[jj].to < n by {
                assert(self.graph.edges@[jj] == spec_edges_upto(s, s.len() as int)[jj]);
            }
        }
        let mut start: Vec<usize> = Vec::new();
        start.push(kix);
        proof {
            assert(index_set(start@) =~= Set::<int>::empty().insert(kix as int)) by {
                assert(start@[0] as int == kix as int);
                assert forall|y: int| index_set(start@).contains(y) implies y == kix as int by {
                    let w = choose|w: int| 0 <= w < start@.len() && (start@[w]) as int == y;
                }
            }
        }
        let down = traverse(n, &self.graph.edges, start, false);
        let ghost down_set = index_set(down@);

        // Collect the other parents of every strict descendant.
        let edges = &self.graph.edges;
        let mut ps: Vec<usize> = Vec::new();
        let mut j: usize = 0;
        while j < edges.len()
            invariant
                j <= edges@.len(),
                down_set == index_set(down@),
                forall|jj: int|
                    0 <= jj < edges@.len() ==> (#[trigger] edges@[jj]).from < n
                        && edges@[jj].to < n,
                forall|jj: int| 0 <= jj < ps@.len() ==> (#[trigger] ps@[jj]) < n,
                forall|z: int|
                    index_set(ps@).contains(z) <==> exists|jj: int|
                        0 <= jj < j && down_set.contains((#[trigger] edges@[jj]).to as int)
                            && edges@[jj].to != kix && edges@[jj].from as int == z,
            decreases edges@.len() - j,
        {
            let e = edges[j];
            let ghost ps0 = ps@;
            if e.to != kix && contains_idx(&down, e.to) {
                ps.push(e.from);
                proof {
                    assert(ps@[ps@.len() - 1] as int == e.from as int);
                    assert forall|z: int| index_set(ps@).contains(z) implies index_set(
                        ps0,
                    ).contains(z) || z == e.from as int by {
                        let w = choose|w: int| 0 <= w < ps@.len() && (ps@[w]) as int == z;
                        if w < ps0.len() {
                            assert(ps0[w] as int == z);
                        }
                    }
                    assert forall|z: int| index_set(ps0).contains(z) implies index_set(
                        ps@,
                    ).contains(z) by {
                        let w = choose|w: int| 0 <= w < ps0.len() && (ps0[w]) as int == z;
                        assert(ps@[w] as int == z);
                    }
                }
            }
            proof {
                assert forall|z: int| index_set(ps@).contains(z) implies exists|jj: int|
                    0 <= jj < j + 1 && down_set.contains((#[trigger] edges@[jj]).to as int)
                        && edges@[jj].to != kix && edges@[jj].from as int == z by {
                    if index_set(ps0).contains(z) {
                        let jj = choose|jj: int|
                            0 <= jj < j && down_set.contains((#[trigger] edges@[jj]).to as int)
                                && edges@[jj].to != kix && edges@[jj].from as int == z;
                        assert(0 <= jj < j + 1 && down_set.contains(
                            (edges@[jj]).to as int,
                        ) && edges@[jj].to != kix && edges@[jj].from as int == z);
                    } else {
                        assert(z == e.from as int);
                        assert(0 <= j < j + 1 && down_set.contains(
                            (edges@[j as int]).to as int,
                        ) && edges@[j as int].to != kix && edges@[j as int].from as int == z);
                    }
                }
                assert forall|z: int|
                    (exists|jj: int|
                        0 <= jj < j + 1 && down_set.contains((#[trigger] edges@[jj]).to as int)
                            && edges@[jj].to != kix && edges@[jj].from as int
                            == z) implies index_set(ps@).contains(z) by {
                    let jj = choose|jj: int|
                        0 <= jj < j + 1 && down_set.contains((#[trigger] edges@[jj]).to as int)
                            && edges@[jj].to != kix && edges@[jj].from as int == z;
                    if jj < j {
                        assert(index_set(ps0).contains(z));
                    } else {
                        assert(index_set(ps@).contains(e.from as int));
                    }
                }
            }
            j = j + 1;
        }
        proof {
            assert(index_set(ps@) =~= co_parent_seeds(edges@, down_set, kix as int)) by {
                assert forall|z: int| index_set(ps@).contains(z) implies co_parent_seeds(
                    edges@,
                    down_set,
                    kix as int,
                ).contains(z) by {
                    let jj = choose|jj: int|
                        0 <= jj < edges@.len() && down_set.contains(edges@[jj].to as int)
                            && edges@[jj].to != kix && edges@[jj].from as int == z;
                    let c = edges@[jj].to as int;
                    assert(step(edges@, true, c, z)) by {
                        assert(src_of(edges@[jj], true) == c && dst_of(edges@[jj], true) == z);
                    }
                    assert(down_set.contains(c) && c != kix as int && step(edges@, true, c, z));
                }
                assert forall|z: int| co_parent_seeds(edges@, down_set, kix as int).contains(
                    z,
                ) implies index_set(ps@).contains(z) by {
                    let c = choose|c: int|
                        #[trigger] down_set.contains(c) && c != kix as int && step(
                            edges@,
                            true,
                            c,
                            z,
                        );
                    let jj = choose|jj: int|
                        0 <= jj < edges@.len() && src_of(#[trigger] edges@[jj], true) == c
                            && dst_of(edges@[jj], true) == z;
                    assert(down_set.contains(edges@[jj].to as int) && edges@[jj].to != kix
                        && edges@[jj].from as int == z);
                }
            }
        }
        let anc = traverse(n, edges, ps, true);
        let r = union_idx(down, &anc);
        proof {
            assert(index_set(r@) =~= family_set(self.graph.edges@, kix as int));
        }
        r
    }

    /// Walk up the graph to find all ancestors of the given kanji: parent,
    /// grandparent and so on, not including the kanji itself (unless a
    /// cycle leads back to it). A kanji without a record has no ancestors.
    pub fn all_parents(&self, k: Kanji) -> (r: Vec<usize>)
        requires
            self.wf(),
        ensures
            r@.no_duplicates(),
            forall|i: int| 0 <= i < r@.len() ==> (#[trigger] r@[i]) < self.graph.nodes@.len(),
            index_set(r@) == ancestor_set(self.graph.edges@, self.entries.entries(), k.spec_get()),
    {
        let n = self.graph.nodes.len();
        let ghost s = self.entries.entries();
        proof {
            lemma_spec_edges_wf(s, s.len() as int);
            assert(self.graph.node_seq().len() == self.graph.nodes@.len());
            assert(s.map_values(|e: EntryV| e.kanji).len() == s.len());
            assert(self.graph.nodes@.len() == s.len());
            assert forall|jj: int| 0 <= jj < self.graph.edges@.len() implies (#[trigger] self.graph.edges@[jj]).from < n && self.graph.edges@[jj].to < n by {
                assert(self.graph.edges@[jj] == spec_edges_upto(s, s.len() as int)[jj]);
            }
        }
        match self.entries.index_of(k) {
            None => {
                let r: Vec<usize> = Vec::new();
                proof {
                    assert(index_set(r@) =~= Set::<int>::empty()) by {
                        assert forall|y: int| !index_set(r@).contains(y) by {
                            if index_set(r@).contains(y) {
                                let w = choose|w: int|
                                    0 <= w < r@.len() && (r@[w]) as int == y;
                            }
                        }
                    }
                }
                r
            },
            Some(kix) => {
                let edges = &self.graph.edges;
                let mut ps: Vec<usize> = Vec::new();
                let mut j: usize = 0;
                while j < edges.len()
                    invariant
                        j <= edges@.len(),
                        forall|jj: int|
                            0 <= jj < edges@.len() ==> (#[trigger] edges@[jj]).from < n
                                && edges@[jj].to < n,
                        forall|jj: int| 0 <= jj < ps@.len() ==> (#[trigger] ps@[jj]) < n,
                        forall|z: int|
                            index_set(ps@).contains(z) <==> exists|jj: int|
                                0 <= jj < j && (#[trigger] edges@[jj]).to == kix
                                    && edges@[jj].from as int == z,
                    decreases edges@.len() - j,
                {
                    let e = edges[j];
                    let ghost ps0 = ps@;
                    if e.to == kix {
                        ps.push(e.from);
                        proof {
                            assert(ps@[ps@.len() - 1] as int == e.from as int);
                            assert forall|z: int| index_set(ps@).contains(z) implies index_set(
                                ps0,
                            ).contains(z) || z == e.from as int by {
                                let w = choose|w: int|
                                    0 <= w < ps@.len() && (ps@[w]) as int == z;
                                if w < ps0.len() {
                                    assert(ps0[w] as int == z);
                                }
                            }
                            assert forall|z: int| index_set(ps0).contains(z) implies index_set(
                                ps@,
                            ).contains(z) by {
                                let w = choose|w: int|
                                    0 <= w < ps0.len() && (ps0[w]) as int == z;
                                assert(ps@[w] as int == z);
                            }
                        }
                    }
                    proof {
                        assert forall|z: int| index_set(ps@).contains(z) implies exists|jj: int|
                            0 <= jj < j + 1 && (#[trigger] edges@[jj]).to == kix
                                && edges@[jj].from as int == z by {
                            if index_set(ps0).contains(z) {
                                let jj = choose|jj: int|
                                    0 <= jj < j && (#[trigger] edges@[jj]).to == kix
                                        && edges@[jj].from as int == z;
                                assert(0 <= jj < j + 1 && (edges@[jj]).to == kix
                                    && edges@[jj].from as int == z);
                            } else {
                                assert(z == e.from as int);
                                assert(0 <= j < j + 1 && (edges@[j as int]).to == kix
                                    && edges@[j as int].from as int == z);
                            }
                        }
                        assert forall|z: int|
                            (exists|jj: int|
                                0 <= jj < j + 1 && (#[trigger] edges@[jj]).to == kix
                                    && edges@[jj].from as int == z) implies index_set(
                            ps@,
                        ).contains(z) by {
                            let jj = choose|jj: int|
                                0 <= jj < j + 1 && (#[trigger] edges@[jj]).to == kix
                                    && edges@[jj].from as int == z;
                            if jj < j {
                                assert(index_set(ps0).contains(z));
                            } else {
                                assert(index_set(ps@).contains(e.from as int));
                            }
                        }
                    }
                    j = j + 1;
                }
                proof {
                    assert(index_set(ps@) =~= parent_seeds(edges@, kix as int)) by {
                        assert forall|z: int| index_set(ps@).contains(z) implies parent_seeds(
                            edges@,
                            kix as int,
                        ).contains(z) by {
                            let jj = choose|jj: int|
                                0 <= jj < edges@.len() && (#[trigger] edges@[jj]).to == kix
                                    && edges@[jj].from as int == z;
                            assert(step(edges@, true, kix as int, z)) by {
                                assert(src_of(edges@[jj], true) == kix as int && dst_of(
                                    edges@[jj],
                                    true,
                                ) == z);
                            }
                        }
                        assert forall|z: int| parent_seeds(edges@, kix as int).contains(
                            z,
                        ) implies index_set(ps@).contains(z) by {
                            let jj = choose|jj: int|
                                0 <= jj < edges@.len() && src_of(#[trigger] edges@[jj], true)
                                    == kix as int && dst_of(edges@[jj], true) == z;
                            assert(edges@[jj].to == kix && edges@[jj].from as int == z);
                        }
                    }
                }
                let r = traverse(n, edges, ps, true);
                r
            },
        }
    }
}

} // verus!
