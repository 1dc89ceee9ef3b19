//! The graph renderer: serializes a relationship graph into a textual
//! graph-description document — a directed-graph block holding one node
//! statement per node, a blank separator line, and one edge statement per
//! edge, with a fixed color per classification. Grouped mode first gathers
//! nodes that share a first reading into labeled clusters.

use vstd::prelude::*;
use crate::graph::{KGraph, DB};
use crate::inherit::spec_dot_attr;
use crate::store::{key_index, seq_contains_key, EntryV};
use crate::text::{push_char, push_dec, spec_dec};
use crate::Kanji;

verus! {

/// Specific settings for producing the graph-description output.
pub enum DotMode {
    NoGroups,
    Groups,
}

/// One node statement: the node index, its kanji as the label, a marking
/// shape when the node is highlighted, and a trailing semicolon inside
/// clusters.
pub open spec fn spec_node_stmt(
    indent: Seq<char>,
    ix: int,
    k: char,
    hl: bool,
    semi: bool,
) -> Seq<char> {
    indent + spec_dec(ix) + " [ label=\""@ + seq![k] + "\""@ + (if hl {
        ", shape=doublecircle"@
    } else {
        Seq::<char>::empty()
    }) + " ]"@ + (if semi {
        ";"@
    } else {
        Seq::<char>::empty()
    }) + "\n"@
}

/// The flat node section over the first `n` nodes: one statement per node
/// whose kanji has a record, in node-index order.
pub open spec fn spec_flat_nodes(
    s: Seq<EntryV>,
    nodes: Seq<char>,
    hl: Set<char>,
    n: int,
) -> Seq<char>
    decreases n,
{
    if n <= 0 {
        Seq::<char>::empty()
    } else {
        spec_flat_nodes(s, nodes, hl, n - 1) + if seq_contains_key(s, nodes[n - 1]) {
            spec_node_stmt("    "@, n - 1, nodes[n - 1], hl.contains(nodes[n - 1]), false)
        } else {
            Seq::<char>::empty()
        }
    }
}

/// One edge statement: source index, target index, and the label's fixed
/// color attribute.
pub open spec fn spec_edge_line(e: crate::graph::Edge) -> Seq<char> {
    "    "@ + spec_dec(e.from as int) + " -> "@ + spec_dec(e.to as int) + " [ "@ + spec_dot_attr(
        e.label,
    ) + " ]\n"@
}

/// The edge section over the first `n` edges, in edge order.
pub open spec fn spec_edge_section(edges: Seq<crate::graph::Edge>, n: int) -> Seq<char>
    decreases n,
{
    if n <= 0 {
        Seq::<char>::empty()
    } else {
        spec_edge_section(edges, n - 1) + spec_edge_line(edges[n - 1])
    }
}

/// The highlight set: the characters of the given kanji list.
pub open spec fn spec_hl_set(hl: Seq<Kanji>) -> Set<char> {
    hl.map_values(|k: Kanji| k.spec_get()).to_set()
}

/// One node of the graph as grouped rendering sees it: its index, its
/// kanji, and the first reading of its entry (or `None` when the entry has
/// no reading).
pub ghost struct NodeItem {
    pub ix: int,
    pub k: char,
    pub yomi: Option<Seq<char>>,
}

/// The reading a node item carries, as a plain sequence.
pub open spec fn yomi_view(o: Option<String>) -> Option<Seq<char>> {
    match o {
        Some(st) => Some(st@),
        None => None,
    }
}

/// The mathematical content of one executable node item.
pub open spec fn item_view(t: (usize, Kanji, Option<String>)) -> NodeItem {
    NodeItem { ix: t.0 as int, k: t.1.spec_get(), yomi: yomi_view(t.2) }
}

/// Strict lexicographic order on readings, character code by character
/// code; a proper prefix sorts before its extensions.
pub open spec fn lex_lt(x: Seq<char>, y: Seq<char>) -> bool
    decreases x.len(),
{
    if y.len() == 0 {
        false
    } else if x.len() == 0 {
        true
    } else if (x[0] as u32) < (y[0] as u32) {
        true
    } else if (x[0] as u32) > (y[0] as u32) {
        false
    } else {
        lex_lt(x.skip(1), y.skip(1))
    }
}

/// Order on optional readings: concrete readings in lexicographic order,
/// and a missing reading after all concrete ones.
pub open spec fn yomi_lt(a: Option<Seq<char>>, b: Option<Seq<char>>) -> bool {
    match (a, b) {
        (Some(x), None) => true,
        (Some(x), Some(y)) => lex_lt(x, y),
        _ => false,
    }
}

/// The grouped rendering order: ascending by reading (missing readings
/// last), ties broken by node index, which keeps source iteration order
/// within a group.
pub open spec fn item_lt(a: NodeItem, b: NodeItem) -> bool {
    yomi_lt(a.yomi, b.yomi) || (a.yomi == b.yomi && a.ix < b.ix)
}

/// Insert one item into an ordered item sequence, before the first member
/// it sorts ahead of.
pub open spec fn insert_item(s: Seq<NodeItem>, x: NodeItem) -> Seq<NodeItem>
    decreases s.len(),
{
    if s.len() == 0 {
        seq![x]
    } else if item_lt(x, s[0]) {
        seq![x] + s
    } else {
        seq![s[0]] + insert_item(s.skip(1), x)
    }
}

/// The item sequence rearranged into rendering order, one insertion at a
/// time.
pub open spec fn sort_items(s: Seq<NodeItem>) -> Seq<NodeItem>
    decreases s.len(),
{
    if s.len() == 0 {
        Seq::<NodeItem>::empty()
    } else {
        insert_item(sort_items(s.drop_last()), s.last())
    }
}

/// When `p` is the first position whose member the new item sorts ahead
/// of, insertion is exactly a splice at `p`.
proof fn lemma_insert_item_at(s: Seq<NodeItem>, x: NodeItem, p: int)
    requires
        0 <= p <= s.len(),
        forall|j: int| 0 <= j < p ==> !item_lt(x, s[j]),
        p < s.len() ==> item_lt(x, s[p]),
    ensures
        insert_item(s, x) == s.subrange(0, p) + seq![x] + s.subrange(p, s.len() as int),
    decreases s.len(),
{
    if s.len() == 0 {
        assert(insert_item(s, x) =~= s.subrange(0, p) + seq![x] + s.subrange(p, s.len() as int));
    } else if p == 0 {
        assert(insert_item(s, x) =~= s.subrange(0, p) + seq![x] + s.subrange(p, s.len() as int));
    } else {
        lemma_insert_item_at(s.skip(1), x, p - 1);
        assert(insert_item(s, x) =~= s.subrange(0, p) + seq![x] + s.subrange(p, s.len() as int));
    }
}

/// The node items of the first `n` nodes, in node-index order: one item
/// per node whose kanji has a record.
pub open spec fn first_yomi(s: Seq<EntryV>, k: char) -> Option<Seq<char>> {
    let e = s[key_index(s, k)];
    if e.onyomi.len() > 0 {
        Some(e.onyomi[0])
    } else {
        None
    }
}

/// The renderable node items of the first `n` nodes of a graph.
pub open spec fn items_of(s: Seq<EntryV>, nodes: Seq<char>, n: int) -> Seq<NodeItem>
    decreases n,
{
    if n <= 0 {
        Seq::<NodeItem>::empty()
    } else {
        items_of(s, nodes, n - 1) + if seq_contains_key(s, nodes[n - 1]) {
            seq![NodeItem { ix: n - 1, k: nodes[n - 1], yomi: first_yomi(s, nodes[n - 1]) }]
        } else {
            Seq::<NodeItem>::empty()
        }
    }
}

/// How many leading items share the reading `y`.
pub open spec fn run_len(s: Seq<NodeItem>, y: Option<Seq<char>>) -> int
    decreases s.len(),
{
    if s.len() == 0 || s[0].yomi != y {
        0
    } else {
        1 + run_len(s.skip(1), y)
    }
}

/// A run never exceeds the sequence.
proof fn lemma_run_len_le(s: Seq<NodeItem>, y: Option<Seq<char>>)
    ensures
        0 <= run_len(s, y) <= s.len(),
    decreases s.len(),
{
    if s.len() > 0 && s[0].yomi == y {
        lemma_run_len_le(s.skip(1), y);
    }
}

/// When the first `m` items share the reading and the next does not, the
/// run is exactly `m` long.
proof fn lemma_run_len_at(s: Seq<NodeItem>, y: Option<Seq<char>>, m: int)
    requires
        0 <= m <= s.len(),
        forall|j: int| 0 <= j < m ==> (#[trigger] s[j]).yomi == y,
        m < s.len() ==> s[m].yomi != y,
    ensures
        run_len(s, y) == m,
    decreases s.len(),
{
    if m == 0 {
    } else {
        assert(s[0].yomi == y);
        assert forall|j: int| 0 <= j < m - 1 implies (#[trigger] s.skip(1)[j]).yomi == y by {
            assert(s[j + 1].yomi == y);
        }
        lemma_run_len_at(s.skip(1), y, m - 1);
    }
}

/// The statements of one run of nodes, in order, with the given indent
/// and statement terminator.
pub open spec fn member_lines(
    grp: Seq<NodeItem>,
    hl: Set<char>,
    indent: Seq<char>,
    semi: bool,
) -> Seq<char>
    decreases grp.len(),
{
    if grp.len() == 0 {
        Seq::<char>::empty()
    } else {
        member_lines(grp.drop_last(), hl, indent, semi) + spec_node_stmt(
            indent,
            grp.last().ix,
            grp.last().k,
            hl.contains(grp.last().k),
            semi,
        )
    }
}

/// One labeled cluster: its header, its member statements, and its footer.
pub open spec fn cluster_text(y: Seq<char>, grp: Seq<NodeItem>, hl: Set<char>) -> Seq<char> {
    "\n    subgraph cluster_"@ + y + " {\n        label=\""@ + y
        + "\";\n        style=dashed;\n        color=brown;\n\n"@ + member_lines(
        grp,
        hl,
        "        "@,
        true,
    ) + "    }\n\n"@
}

/// The grouped node section over an ordered item sequence: runs that share
/// a concrete reading and have two or more members become labeled
/// clusters; every other run is emitted flat.
pub open spec fn spec_groups(s: Seq<NodeItem>, hl: Set<char>) -> Seq<char>
    decreases s.len(),
    via spec_groups_decreases
{
    if s.len() == 0 {
        Seq::<char>::empty()
    } else {
        let y = s[0].yomi;
        let r = run_len(s, y);
        let grp = s.subrange(0, r);
        let text = match y {
            Some(yy) => if r >= 2 {
                cluster_text(yy, grp, hl)
            } else {
                member_lines(grp, hl, "    "@, false)
            },
            None => member_lines(grp, hl, "    "@, false),
        };
        text + spec_groups(s.skip(r), hl)
    }
}

#[via_fn]
proof fn spec_groups_decreases(s: Seq<NodeItem>, hl: Set<char>) {
    if s.len() > 0 {
        lemma_run_len_le(s, s[0].yomi);
        lemma_run_len_le(s.skip(1), s[0].yomi);
        assert(run_len(s, s[0].yomi) == 1 + run_len(s.skip(1), s[0].yomi));
    }
}

/// The whole grouped node section of a graph.
pub open spec fn spec_group_section(
    s: Seq<EntryV>,
    nodes: Seq<char>,
    hl: Set<char>,
    n: int,
) -> Seq<char> {
    spec_groups(sort_items(items_of(s, nodes, n)), hl)
}

/// Strict lexicographic comparison of two readings.
fn lex_lt_exec(x: &str, y: &str) -> (r: bool)
    ensures
        r == lex_lt(x@, y@),
{
    let xn = x.unicode_len();
    let yn = y.unicode_len();
    let mut i: usize = 0;
    proof {
        assert(x@.skip(0) =~= x@);
        assert(y@.skip(0) =~= y@);
    }
    while i < xn && i < yn
        invariant
            xn == x@.len(),
            yn == y@.len(),
            i <= xn,
            i <= yn,
            lex_lt(x@, y@) == lex_lt(x@.skip(i as int), y@.skip(i as int)),
        decreases xn - i,
    {
        let cx = x.get_char(i);
        let cy = y.get_char(i);
        proof {
            assert(x@.skip(i as int)[0] == cx);
            assert(y@.skip(i as int)[0] == cy);
        }
        if (cx as u32) < (cy as u32) {
            return true;
        }
        if (cx as u32) > (cy as u32) {
            return false;
        }
        proof {
            assert(x@.skip(i as int).skip(1) =~= x@.skip(i + 1));
            assert(y@.skip(i as int).skip(1) =~= y@.skip(i + 1));
        }
        i = i + 1;
    }
    proof {
        if i == xn && i < yn {
            assert(x@.skip(i as int).len() == 0);
            assert(y@.skip(i as int).len() > 0);
        } else if i == yn {
            assert(y@.skip(i as int).len() == 0);
        }
    }
    xn < yn
}

/// The grouped rendering order on executable node items.
fn item_lt_exec(a: &(usize, Kanji, Option<String>), b: &(usize, Kanji, Option<String>)) -> (r:
    bool)
    ensures
        r == item_lt(item_view(*a), item_view(*b)),
{
    match (&a.2, &b.2) {
        (Some(_), None) => true,
        (None, Some(_)) => false,
        (None, None) => a.0 < b.0,
        (Some(x), Some(y)) => {
            if lex_lt_exec(x.as_str(), y.as_str()) {
                true
            } else if *x == *y {
                a.0 < b.0
            } else {
                false
            }
        },
    }
}

/// Do two optional readings agree?
fn yomi_eq_exec(a: &Option<String>, b: &Option<String>) -> (r: bool)
    ensures
        r == (yomi_view(*a) == yomi_view(*b)),
{
    match (a, b) {
        (None, None) => true,
        (Some(x), Some(y)) => *x == *y,
        _ => false,
    }
}

/// Append one node statement.
fn push_node_stmt(out: &mut String, indent: &str, ix: usize, k: Kanji, hl: bool, semi: bool)
    ensures
        final(out)@ == old(out)@ + spec_node_stmt(
            indent@,
            ix as int,
            k.spec_get(),
            hl,
            semi,
        ),
{
    out.append(indent);
    push_dec(out, ix);
    out.append(" [ label=\"");
    push_char(out, k.get());
    out.append("\"");
    if hl {
        out.append(", shape=doublecircle");
    }
    out.append(" ]");
    if semi {
        out.append(";");
    }
    out.append("\n");
    proof {
        assert(out@ =~= old(out)@ + spec_node_stmt(indent@, ix as int, k.spec_get(), hl, semi));
    }
}

/// Append one edge statement.
fn push_edge_line(out: &mut String, e: crate::graph::Edge)
    ensures
        final(out)@ == old(out)@ + spec_edge_line(e),
{
    out.append("    ");
    push_dec(out, e.from);
    out.append(" -> ");
    push_dec(out, e.to);
    out.append(" [ ");
    let attr = e.label.to_dot_attr();
    out.append(attr.as_str());
    out.append(" ]\n");
    proof {
        assert(out@ =~= old(out)@ + spec_edge_line(e));
    }
}

/// Is the kanji one of the highlighted ones?
fn is_highlighted(hl: &Vec<Kanji>, k: Kanji) -> (b: bool)
    ensures
        b == spec_hl_set(hl@).contains(k.spec_get()),
{
    let mut i: usize = 0;
    while i < hl.len()
        invariant
            i <= hl@.len(),
            forall|j: int| 0 <= j < i ==> (#[trigger] hl@[j]).spec_get() != k.spec_get(),
        decreases hl@.len() - i,
    {
        if hl[i].get() == k.get() {
            proof {
                let m = hl@.map_values(|x: Kanji| x.spec_get());
                assert(m[i as int] == k.spec_get());
                assert(m.contains(k.spec_get()));
            }
            return true;
        }
        i = i + 1;
    }
    proof {
        let m = hl@.map_values(|x: Kanji| x.spec_get());
        if m.contains(k.spec_get()) {
            let w = choose|w: int| 0 <= w < m.len() && m[w] == k.spec_get();
            assert(hl@[w].spec_get() == k.spec_get());
        }
    }
    false
}

/// Append the node statements of the items at positions `p..q`.
fn emit_members(
    out: &mut String,
    highlight: &Vec<Kanji>,
    sorted: &Vec<(usize, Kanji, Option<String>)>,
    p: usize,
    q: usize,
    indent: &str,
    semi: bool,
)
    requires
        p <= q <= sorted@.len(),
    ensures
        final(out)@ == old(out)@ + member_lines(
            sorted@.map_values(|t: (usize, Kanji, Option<String>)| item_view(t)).subrange(
                p as int,
                q as int,
            ),
            spec_hl_set(highlight@),
            indent@,
            semi,
        ),
{
    let ghost ss = sorted@.map_values(|t: (usize, Kanji, Option<String>)| item_view(t));
    let ghost hlset = spec_hl_set(highlight@);
    let mut m = p;
    proof {
        assert(out@ =~= old(out)@ + member_lines(
            ss.subrange(p as int, p as int),
            hlset,
            indent@,
            semi,
        ));
    }
    while m < q
        invariant
            p <= m <= q <= sorted@.len(),
            ss == sorted@.map_values(|t: (usize, Kanji, Option<String>)| item_view(t)),
            hlset == spec_hl_set(highlight@),
            out@ == old(out)@ + member_lines(ss.subrange(p as int, m as int), hlset, indent@, semi),
        decreases q - m,
    {
        let ix = sorted[m].0;
        let k = sorted[m].1;
        proof {
            assert(ss[m as int] == item_view(sorted@[m as int]));
            assert(ss[m as int].ix == ix as int);
            assert(ss[m as int].k == k.spec_get());
        }
        let hl = is_highlighted(highlight, k);
        push_node_stmt(out, indent, ix, k, hl, semi);
        proof {
            assert(ss.subrange(p as int, m + 1).drop_last() =~= ss.subrange(p as int, m as int));
            assert(ss.subrange(p as int, m + 1).last() == ss[m as int]);
            assert(out@ =~= old(out)@ + member_lines(
                ss.subrange(p as int, m + 1),
                hlset,
                indent@,
                semi,
            ));
        }
        m = m + 1;
    }
}

impl DB {
    /// The node items of the graph, arranged into rendering order.
    fn sorted_items(&self, graph: &KGraph) -> (sorted: Vec<(usize, Kanji, Option<String>)>)
        requires
            self.entries.wf(),
        ensures
            sorted@.map_values(|t: (usize, Kanji, Option<String>)| item_view(t)) == sort_items(
                items_of(
                    self.entries.entries(),
                    graph.node_seq(),
                    graph.nodes@.len() as int,
                ),
            ),
    {
        let ghost s = self.entries.entries();
        let ghost nchars = graph.node_seq();
        let mut sorted: Vec<(usize, Kanji, Option<String>)> = Vec::new();
        let mut i: usize = 0;
        proof {
            assert(sorted@.map_values(|t: (usize, Kanji, Option<String>)| item_view(t))
                =~= sort_items(items_of(s, nchars, 0)));
        }
        while i < graph.nodes.len()
            invariant
                self.entries.wf(),
                s == self.entries.entries(),
                nchars == graph.node_seq(),
                i <= graph.nodes@.len(),
                sorted@.map_values(|t: (usize, Kanji, Option<String>)| item_view(t)) == sort_items(
                    items_of(s, nchars, i as int),
                ),
            decreases graph.nodes@.len() - i,
        {
            let k = graph.nodes[i];
            proof {
                assert(nchars[i as int] == k.spec_get());
            }
            match self.entries.index_of(k) {
                Some(idx) => {
                    let e = &self.entries.list[idx];
                    proof {
                        assert(s[idx as int] == e@);
                    }
                    let yomi: Option<String> = if e.onyomi.len() > 0 {
                        Some(e.onyomi[0].clone())
                    } else {
                        None
                    };
                    let item = (i, k, yomi);
                    let ghost iv = NodeItem {
                        ix: i as int,
                        k: k.spec_get(),
                        yomi: first_yomi(s, nchars[i as int]),
                    };
                    proof {
                        assert(idx as int == key_index(s, k.spec_get()));
                        if e.onyomi.len() > 0 {
                            assert(e@.onyomi[0] == e.onyomi@[0]@);
                        }
                        assert(item_view(item) == iv);
                    }
                    let ghost ss = sorted@.map_values(
                        |t: (usize, Kanji, Option<String>)| item_view(t),
                    );
                    let mut pos: usize = 0;
                    while pos < sorted.len() && !item_lt_exec(&item, &sorted[pos])
                        invariant
                            ss == sorted@.map_values(
                                |t: (usize, Kanji, Option<String>)| item_view(t),
                            ),
                            pos <= sorted@.len(),
                            iv == item_view(item),
                            forall|j: int| 0 <= j < pos ==> !item_lt(iv, ss[j]),
                        decreases sorted@.len() - pos,
                    {
                        proof {
                            assert(ss[pos as int] == item_view(sorted@[pos as int]));
                        }
                        pos = pos + 1;
                    }
                    proof {
                        if pos < sorted@.len() {
                            assert(ss[pos as int] == item_view(sorted@[pos as int]));
                        }
                        lemma_insert_item_at(ss, iv, pos as int);
                    }
                    let ghost pre = sorted@;
                    sorted.insert(pos, item);
                    proof {
                        assert(sorted@.map_values(|t: (usize, Kanji, Option<String>)| item_view(t))
                            =~= ss.subrange(0, pos as int) + seq![iv] + ss.subrange(
                            pos as int,
                            ss.len() as int,
                        )) by {
                            assert(sorted@ =~= pre.subrange(0, pos as int) + seq![item]
                                + pre.subrange(pos as int, pre.len() as int));
                        }
                        let t0 = items_of(s, nchars, i as int);
                        let t1 = items_of(s, nchars, i + 1);
                        assert(t1 == t0 + seq![iv]);
                        assert(t1.drop_last() =~= t0);
                        assert(t1.last() == iv);
                        assert(sort_items(t1) == insert_item(sort_items(t0), iv));
                    }
                },
                None => {
                    proof {
                        assert(items_of(s, nchars, i + 1) =~= items_of(s, nchars, i as int));
                    }
                },
            }
            i = i + 1;
        }
        sorted
    }

    /// The grouped node section of the given graph.
    fn grouped_nodes(&self, out: &mut String, highlight: &Vec<Kanji>, graph: &KGraph)
        requires
            self.entries.wf(),
        ensures
            final(out)@ == old(out)@ + spec_group_section(
                self.entries.entries(),
                graph.node_seq(),
                spec_hl_set(highlight@),
                graph.nodes@.len() as int,
            ),
    {
        let ghost hlset = spec_hl_set(highlight@);
        let sorted = self.sorted_items(graph);
        let ghost ss = sorted@.map_values(|t: (usize, Kanji, Option<String>)| item_view(t));
        let mut p: usize = 0;
        proof {
            assert(ss.skip(0) =~= ss);
        }
        while p < sorted.len()
            invariant
                ss == sorted@.map_values(|t: (usize, Kanji, Option<String>)| item_view(t)),
                hlset == spec_hl_set(highlight@),
                p <= sorted@.len(),
                old(out)@ + spec_groups(ss, hlset) == out@ + spec_groups(ss.skip(p as int), hlset),
            decreases sorted@.len() - p,
        {
            let ghost y = ss[p as int].yomi;
            proof {
                assert(ss[p as int] == item_view(sorted@[p as int]));
                assert(y == yomi_view(sorted@[p as int].2));
            }
            // Find the end of the run of this reading.
            let mut q: usize = p + 1;
            while q < sorted.len() && yomi_eq_exec(&sorted[q].2, &sorted[p].2)
                invariant
                    ss == sorted@.map_values(|t: (usize, Kanji, Option<String>)| item_view(t)),
                    p < q <= sorted@.len(),
                    y == yomi_view(sorted@[p as int].2),
                    forall|j: int| p <= j < q ==> (#[trigger] ss[j]).yomi == y,
                decreases sorted@.len() - q,
            {
                proof {
                    assert(ss[q as int] == item_view(sorted@[q as int]));
                }
                q = q + 1;
            }
            proof {
                if q < sorted@.len() {
                    assert(ss[q as int] == item_view(sorted@[q as int]));
                }
                let tail = ss.skip(p as int);
                assert forall|j: int| 0 <= j < q - p implies (#[trigger] tail[j]).yomi == y by {
                    assert(tail[j] == ss[p + j]);
                }
                if (q as int) < ss.len() {
                    assert(tail[q - p as int].yomi != y);
                }
                lemma_run_len_at(tail, y, q - p as int);
            }
            let ghost checkpoint = out@;
            let ghost grp = ss.skip(p as int).subrange(0, q - p as int);
            proof {
                assert(grp =~= ss.subrange(p as int, q as int));
            }
            let run = q - p;
            match &sorted[p].2 {
                Some(ystr) => {
                    if run >= 2 {
                        out.append("\n    subgraph cluster_");
                        out.append(ystr.as_str());
                        out.append(" {\n        label=\"");
                        out.append(ystr.as_str());
                        out.append("\";\n        style=dashed;\n        color=brown;\n\n");
                        emit_members(out, highlight, &sorted, p, q, "        ", true);
                        out.append("    }\n\n");
                        proof {
                            assert(y == Some(ystr@));
                            assert(out@ =~= checkpoint + cluster_text(ystr@, grp, hlset));
                        }
                    } else {
                        emit_members(out, highlight, &sorted, p, q, "    ", false);
                        proof {
                            assert(out@ =~= checkpoint + member_lines(grp, hlset, "    "@, false));
                        }
                    }
                },
                None => {
                    emit_members(out, highlight, &sorted, p, q, "    ", false);
                    proof {
                        assert(out@ =~= checkpoint + member_lines(grp, hlset, "    "@, false));
                    }
                },
            }
            proof {
                let tail = ss.skip(p as int);
                assert(tail[0] == ss[p as int]);
                assert(tail.subrange(0, q - p as int) == grp);
                assert(tail.skip(q - p as int) =~= ss.skip(q as int));
            }
            p = q;
        }
        proof {
            assert(ss.skip(ss.len() as int).len() == 0);
        }
    }

    /// The flat node section of the given graph.
    fn flat_nodes(&self, out: &mut String, highlight: &Vec<Kanji>, graph: &KGraph)
        requires
            self.entries.wf(),
        ensures
            final(out)@ == old(out)@ + spec_flat_nodes(
                self.entries.entries(),
                graph.node_seq(),
                spec_hl_set(highlight@),
                graph.nodes@.len() as int,
            ),
    {
        let ghost s = self.entries.entries();
        let ghost nchars = graph.node_seq();
        let ghost hlset = spec_hl_set(highlight@);
        let mut i: usize = 0;
        proof {
            assert(out@ =~= old(out)@ + spec_flat_nodes(s, nchars, hlset, 0));
        }
        while i < graph.nodes.len()
            invariant
                self.entries.wf(),
                s == self.entries.entries(),
                nchars == graph.node_seq(),
                hlset == spec_hl_set(highlight@),
                i <= graph.nodes@.len(),
                out@ == old(out)@ + spec_flat_nodes(s, nchars, hlset, i as int),
            decreases graph.nodes@.len() - i,
        {
            let k = graph.nodes[i];
            proof {
                assert(nchars[i as int] == k.spec_get());
            }
            match self.entries.index_of(k) {
                Some(_) => {
                    let hl = is_highlighted(highlight, k);
                    push_node_stmt(out, "    ", i, k, hl, false);
                    proof {
                        assert(out@ =~= old(out)@ + spec_flat_nodes(s, nchars, hlset, i + 1));
                    }
                },
                None => {
                    proof {
                        assert(out@ =~= old(out)@ + spec_flat_nodes(s, nchars, hlset, i + 1));
                    }
                },
            }
            i = i + 1;
        }
    }

    /// The edge section of the given graph.
    fn edge_section(&self, out: &mut String, graph: &KGraph)
        ensures
            final(out)@ == old(out)@ + spec_edge_section(graph.edges@, graph.edges@.len() as int),
    {
        let mut i: usize = 0;
        proof {
            assert(out@ =~= old(out)@ + spec_edge_section(graph.edges@, 0));
        }
        while i < graph.edges.len()
            invariant
                i <= graph.edges@.len(),
                out@ == old(out)@ + spec_edge_section(graph.edges@, i as int),
            decreases graph.edges@.len() - i,
        {
            push_edge_line(out, graph.edges[i]);
            proof {
                assert(out@ =~= old(out)@ + spec_edge_section(graph.edges@, i + 1));
            }
            i = i + 1;
        }
    }

    /// Serialize the full relationship graph, flat and without highlights.
    pub fn dot(&self) -> (r: String)
        requires
            self.entries.wf(),
        ensures
            r@ == "digraph {\n"@ + spec_flat_nodes(
                self.entries.entries(),
                self.graph.node_seq(),
                spec_hl_set(Seq::<Kanji>::empty()),
                self.graph.nodes@.len() as int,
            ) + "\n"@ + spec_edge_section(self.graph.edges@, self.graph.edges@.len() as int)
                + "}\n"@,
    {
        let hl: Vec<Kanji> = Vec::new();
        self.dot_custom(DotMode::NoGroups, &hl, &self.graph)
    }

    /// Serialize a graph (the full one or a filtered one): a directed-graph
    /// block with a node statement section, a blank separator line, and an
    /// edge statement section. Flat mode emits one statement per node whose
    /// kanji has a record, marking highlighted nodes with a distinct shape.
    pub fn dot_custom(&self, dot_mode: DotMode, highlight: &Vec<Kanji>, graph: &KGraph) -> (r:
        String)
        requires
            self.entries.wf(),
        ensures
            (dot_mode is NoGroups) ==> r@ == "digraph {\n"@ + spec_flat_nodes(
                self.entries.entries(),
                graph.node_seq(),
                spec_hl_set(highlight@),
                graph.nodes@.len() as int,
            ) + "\n"@ + spec_edge_section(graph.edges@, graph.edges@.len() as int) + "}\n"@,
            (dot_mode is Groups) ==> r@ == "digraph {\n"@ + spec_group_section(
                self.entries.entries(),
                graph.node_seq(),
                spec_hl_set(highlight@),
                graph.nodes@.len() as int,
            ) + "\n"@ + spec_edge_section(graph.edges@, graph.edges@.len() as int) + "}\n"@,
    {
        let mut out = String::new();
        out.append("digraph {\n");
        match dot_mode {
            DotMode::NoGroups => {
                self.flat_nodes(&mut out, highlight, graph);
                proof {
                    assert(out@ =~= "digraph {\n"@ + spec_flat_nodes(
                        self.entries.entries(),
                        graph.node_seq(),
                        spec_hl_set(highlight@),
                        graph.nodes@.len() as int,
                    ));
                }
            },
            DotMode::Groups => {
                self.grouped_nodes(&mut out, highlight, graph);
                proof {
                    assert(out@ =~= "digraph {\n"@ + spec_group_section(
                        self.entries.entries(),
                        graph.node_seq(),
                        spec_hl_set(highlight@),
                        graph.nodes@.len() as int,
                    ));
                }
            },
        }
        let ghost nodes_done = out@;
        out.append("\n");
        self.edge_section(&mut out, graph);
        out.append("}\n");
        proof {
            assert(out@ =~= nodes_done + "\n"@ + spec_edge_section(
                graph.edges@,
                graph.edges@.len() as int,
            ) + "}\n"@);
        }
        out
    }
}

} // verus!
