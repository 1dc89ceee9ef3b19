use kn_core::dot::DotMode;
use kn_core::graph::DB;
use kn_core::store::{Entry, Store};
use kn_core::Kanji;

fn kj(c: char) -> Kanji {
    Kanji::new(c).unwrap()
}

fn entry(c: char, oya: &[char], onyomi: &[&str]) -> Entry {
    Entry {
        kanji: kj(c),
        oya: oya.iter().map(|o| kj(*o)).collect(),
        onyomi: onyomi.iter().map(|s| s.to_string()).collect(),
        imi: Vec::new(),
    }
}

#[test]
fn empty_graph_renders_empty_document() {
    let db = DB::new(Store::from_entries(Vec::new()));
    assert_eq!(db.dot(), "digraph {\n\n}\n");
}

#[test]
fn flat_document_exact() {
    let db = DB::new(Store::from_entries(vec![
        entry('顔', &['刀'], &["ガン"]),
        entry('刀', &[], &["トウ"]),
    ]));
    let expected = "digraph {\n\
                    \x20   0 [ label=\"刀\" ]\n\
                    \x20   1 [ label=\"顔\" ]\n\
                    \n\
                    \x20   0 -> 1 [ color=red ]\n\
                    }\n";
    assert_eq!(db.dot(), expected);
}

#[test]
fn flat_highlight_marks_shape() {
    let db = DB::new(Store::from_entries(vec![
        entry('刀', &[], &["トウ"]),
        entry('顔', &['刀'], &["ガン"]),
    ]));
    let hl = vec![kj('顔')];
    let out = db.dot_custom(DotMode::NoGroups, &hl, &db.graph);
    let expected = "digraph {\n\
                    \x20   0 [ label=\"刀\" ]\n\
                    \x20   1 [ label=\"顔\", shape=doublecircle ]\n\
                    \n\
                    \x20   0 -> 1 [ color=red ]\n\
                    }\n";
    assert_eq!(out, expected);
}

#[test]
fn grouped_document_clusters_shared_readings() {
    // 一 (node 0) and 二 (node 2) share the first reading イチ; 三 (node 1)
    // stands alone.
    let db = DB::new(Store::from_entries(vec![
        entry('一', &[], &["イチ"]),
        entry('二', &[], &["イチ"]),
        entry('三', &[], &["サン"]),
    ]));
    let hl: Vec<Kanji> = Vec::new();
    let out = db.dot_custom(DotMode::Groups, &hl, &db.graph);
    let expected = "digraph {\n\
                    \n\
                    \x20   subgraph cluster_イチ {\n\
                    \x20       label=\"イチ\";\n\
                    \x20       style=dashed;\n\
                    \x20       color=brown;\n\
                    \n\
                    \x20       0 [ label=\"一\" ];\n\
                    \x20       2 [ label=\"二\" ];\n\
                    \x20   }\n\
                    \n\
                    \x20   1 [ label=\"三\" ]\n\
                    \n\
                    }\n";
    assert_eq!(out, expected);
}

#[test]
fn grouped_document_missing_readings_sort_last() {
    // 一 has no reading, so it is emitted flat after the cluster of
    // concrete readings.
    let db = DB::new(Store::from_entries(vec![
        entry('一', &[], &[]),
        entry('二', &[], &["ニ"]),
        entry('三', &[], &["ニ"]),
    ]));
    let hl: Vec<Kanji> = Vec::new();
    let out = db.dot_custom(DotMode::Groups, &hl, &db.graph);
    let expected = "digraph {\n\
                    \n\
                    \x20   subgraph cluster_ニ {\n\
                    \x20       label=\"ニ\";\n\
                    \x20       style=dashed;\n\
                    \x20       color=brown;\n\
                    \n\
                    \x20       1 [ label=\"三\" ];\n\
                    \x20       2 [ label=\"二\" ];\n\
                    \x20   }\n\
                    \n\
                    \x20   0 [ label=\"一\" ]\n\
                    \n\
                    }\n";
    assert_eq!(out, expected);
}

#[test]
fn singleton_groups_stay_flat() {
    let db = DB::new(Store::from_entries(vec![
        entry('一', &[], &["イチ"]),
        entry('二', &[], &["ニ"]),
    ]));
    let hl: Vec<Kanji> = Vec::new();
    let out = db.dot_custom(DotMode::Groups, &hl, &db.graph);
    let expected = "digraph {\n\
                    \x20   0 [ label=\"一\" ]\n\
                    \x20   1 [ label=\"二\" ]\n\
                    \n\
                    }\n";
    assert_eq!(out, expected);
}

#[test]
fn node_indices_render_in_decimal() {
    let mut records = Vec::new();
    // Eleven consecutive kanji give a two-digit node index at the end.
    for i in 0..11u32 {
        let c = char::from_u32(0x4e00 + i).unwrap();
        records.push(entry(c, &[], &[]));
    }
    let db = DB::new(Store::from_entries(records));
    let out = db.dot();
    assert!(out.contains("    10 [ label=\"\u{4e0a}\" ]\n"));
}

#[test]
fn filtered_graph_grouped_render_with_highlight() {
    // The graph command's path: filter the graph down to a family, then
    // render it grouped with the focus kanji highlighted.
    let db = DB::new(Store::from_entries(vec![
        entry('一', &[], &["イチ"]),
        entry('二', &['一'], &["ニ"]),
        entry('三', &['二'], &["サン"]),
    ]));
    let hl = vec![kj('二')];
    let filtered = db.filtered_graph(vec![kj('二')]);
    let out = db.dot_custom(DotMode::Groups, &hl, &filtered);
    // All three readings are distinct, so every node is emitted flat, in
    // ascending reading order; both edges classify as Differ.
    let expected = "digraph {\n\
                    \x20   0 [ label=\"一\" ]\n\
                    \x20   1 [ label=\"三\" ]\n\
                    \x20   2 [ label=\"二\", shape=doublecircle ]\n\
                    \n\
                    \x20   2 -> 1 [ color=red ]\n\
                    \x20   0 -> 2 [ color=red ]\n\
                    }\n";
    assert_eq!(out, expected);
}
