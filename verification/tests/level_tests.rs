use kn_core::graph::DB;
use kn_core::store::{Entry, Store};
use kn_core::Kanji;

fn entry(c: char) -> Entry {
    Entry {
        kanji: Kanji::new(c).unwrap(),
        oya: Vec::new(),
        onyomi: Vec::new(),
        imi: Vec::new(),
    }
}

#[test]
fn levels_of_basic_kanji() {
    // 一 belongs to the easiest exam level, rank 0; 㐀 (an extension-A
    // character) is not in the exam lists at all.
    let db = DB::new(Store::from_entries(vec![entry('㐀'), entry('一')]));
    let pairs = db.levels();
    let got: Vec<(char, u8)> = pairs.iter().map(|(k, r)| (k.get(), *r)).collect();
    assert_eq!(got, vec![('一', 0)]);
}

#[test]
fn levels_keep_store_order() {
    // 腕 is a harder exam kanji than 一; both are listed.
    let db = DB::new(Store::from_entries(vec![entry('腕'), entry('一')]));
    let pairs = db.levels();
    let got: Vec<char> = pairs.iter().map(|(k, _)| k.get()).collect();
    assert_eq!(got, vec!['一', '腕']);
    assert_eq!(pairs[0].1, 0);
    assert!(pairs[1].1 > 0);
}
