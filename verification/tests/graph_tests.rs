use kn_core::graph::DB;
use kn_core::inherit::Inherit;
use kn_core::store::{Entry, Store};
use kn_core::Kanji;

fn kj(c: char) -> Kanji {
    Kanji::new(c).unwrap()
}

fn entry(c: char, oya: &[char], onyomi: &[&str]) -> Entry {
    Entry {
        kanji: kj(c),
        oya: oya.iter().map(|o| kj(*o)).collect(),
        onyomi: onyomi.iter().map(|s| s.to_string()).collect(),
        imi: Vec::new(),
    }
}

/// A three-generation chain: 一 is 二's parent, 二 is 三's parent.
/// Store order (by code point): 一 (0), 三 (1), 二 (2).
fn chain_db() -> DB {
    DB::new(Store::from_entries(vec![
        entry('一', &[], &["イチ"]),
        entry('二', &['一'], &["ニ"]),
        entry('三', &['二'], &["サン"]),
    ]))
}

#[test]
fn builder_assigns_nodes_in_store_order() {
    let db = chain_db();
    let nodes: Vec<char> = db.graph.nodes.iter().map(|k| k.get()).collect();
    assert_eq!(nodes, vec!['一', '三', '二']);
}

#[test]
fn builder_creates_one_edge_per_present_parent() {
    let db = chain_db();
    assert_eq!(db.graph.edges.len(), 2);
    // Children are visited in store order: 三 (node 1) before 二 (node 2).
    assert_eq!(db.graph.edges[0].from, 2);
    assert_eq!(db.graph.edges[0].to, 1);
    assert_eq!(db.graph.edges[1].from, 0);
    assert_eq!(db.graph.edges[1].to, 2);
}

#[test]
fn missing_parent_creates_no_edge() {
    let db = DB::new(Store::from_entries(vec![entry('顔', &['刀'], &["ガン"])]));
    assert_eq!(db.graph.nodes.len(), 1);
    assert_eq!(db.graph.edges.len(), 0);
}

#[test]
fn self_reference_and_duplicate_parents_tolerated() {
    let db = DB::new(Store::from_entries(vec![entry('一', &['一', '一'], &["イチ"])]));
    // Two identical parent references produce two parallel self-edges.
    assert_eq!(db.graph.edges.len(), 2);
    for e in db.graph.edges.iter() {
        assert_eq!(e.from, 0);
        assert_eq!(e.to, 0);
        assert_eq!(e.label, Inherit::Same);
    }
}

#[test]
fn edge_classification_end_to_end() {
    let db = DB::new(Store::from_entries(vec![
        entry('顔', &['刀'], &["ガン"]),
        entry('刀', &[], &["トウ"]),
    ]));
    assert_eq!(db.graph.edges.len(), 1);
    let e = db.graph.edges[0];
    // 刀 (node 0) to 顔 (node 1), readings ガン vs トウ share nothing.
    assert_eq!(e.from, 0);
    assert_eq!(e.to, 1);
    assert_eq!(e.label, Inherit::Differ);
}

#[test]
fn entry_lookup_by_node_index() {
    let db = chain_db();
    assert_eq!(db.entry(1).unwrap().kanji.get(), '三');
    assert!(db.entry(3).is_none());
}

#[test]
fn descendants_of_chain_root() {
    let db = chain_db();
    // descendants(一): the whole chain, the start node included.
    let mut ds = db.all_children(0);
    ds.sort();
    assert_eq!(ds, vec![0, 1, 2]);
}

#[test]
fn ancestors_of_chain_leaf() {
    let db = chain_db();
    // ancestors(三) = {一, 二}: excludes 三 itself.
    let mut ans = db.all_parents(kj('三'));
    ans.sort();
    assert_eq!(ans, vec![0, 2]);
    // A kanji with no entry has no ancestors.
    assert!(db.all_parents(kj('四')).is_empty());
}

#[test]
fn ancestors_stop_at_roots() {
    let db = chain_db();
    assert!(db.all_parents(kj('一')).is_empty());
    let mut ans = db.all_parents(kj('二'));
    ans.sort();
    assert_eq!(ans, vec![0]);
}

#[test]
fn filtered_graph_keeps_family_edges() {
    let db = chain_db();
    // Filtering on the middle of the chain pulls in the whole family, so
    // both edges survive with the same relative indices.
    let g = db.filtered_graph(vec![kj('二')]);
    let nodes: Vec<char> = g.nodes.iter().map(|k| k.get()).collect();
    assert_eq!(nodes, vec!['一', '三', '二']);
    assert_eq!(g.edges.len(), 2);
}

#[test]
fn filtered_graph_drops_unrelated_components() {
    let db = DB::new(Store::from_entries(vec![
        entry('一', &[], &["イチ"]),
        entry('二', &['一'], &["ニ"]),
        entry('三', &['二'], &["サン"]),
        entry('四', &[], &["シ"]),
        entry('五', &['四'], &["ゴ"]),
    ]));
    let g = db.filtered_graph(vec![kj('二')]);
    let nodes: Vec<char> = g.nodes.iter().map(|k| k.get()).collect();
    assert_eq!(nodes, vec!['一', '三', '二']);
    // The 四 to 五 edge is gone: an edge never survives the loss of an
    // endpoint, and every surviving edge joins surviving nodes.
    assert_eq!(g.edges.len(), 2);
    for e in g.edges.iter() {
        assert!(e.from < g.nodes.len());
        assert!(e.to < g.nodes.len());
    }
}

#[test]
fn filtered_graph_of_unknown_kanji_is_empty() {
    let db = chain_db();
    let g = db.filtered_graph(vec![kj('四')]);
    assert!(g.nodes.is_empty());
    assert!(g.edges.is_empty());
}

#[test]
fn descendants_terminate_on_cycles() {
    // A parent cycle is tolerated input: the walk terminates and yields
    // the whole cycle.
    let db = DB::new(Store::from_entries(vec![
        entry('一', &['二'], &["イチ"]),
        entry('二', &['一'], &["ニ"]),
    ]));
    let mut ds = db.all_children(0);
    ds.sort();
    assert_eq!(ds, vec![0, 1]);
    let mut ans = db.all_parents(kj('一'));
    ans.sort();
    assert_eq!(ans, vec![0, 1]);
}

#[test]
fn node_index_errors_on_unknown_kanji() {
    let db = chain_db();
    assert_eq!(db.node_index(kj('一')).unwrap(), 0);
    assert_eq!(db.node_index(kj('二')).unwrap(), 2);
    match db.node_index(kj('四')) {
        Err(e) => assert_eq!(e.describe(), "四 is missing from the database."),
        Ok(_) => panic!("a kanji without an entry must be reported missing"),
    }
}
