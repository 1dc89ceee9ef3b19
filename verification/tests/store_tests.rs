use kn_core::error::Error;
use kn_core::kanji_from_str;
use kn_core::store::{Entry, Store};
use kn_core::Kanji;

fn kj(c: char) -> Kanji {
    Kanji::new(c).unwrap()
}

fn entry(c: char, oya: &[char], onyomi: &[&str]) -> Entry {
    Entry {
        kanji: kj(c),
        oya: oya.iter().map(|o| kj(*o)).collect(),
        onyomi: onyomi.iter().map(|s| s.to_string()).collect(),
        imi: Vec::new(),
    }
}

#[test]
fn kanji_validation() {
    assert!(Kanji::new('顔').is_some());
    assert!(Kanji::new('㐀').is_some());
    assert!(Kanji::new('a').is_none());
    assert!(Kanji::new('あ').is_none());
}

#[test]
fn kanji_from_str_filters() {
    let ks = kanji_from_str("a一,あ二 x三");
    let cs: Vec<char> = ks.iter().map(|k| k.get()).collect();
    assert_eq!(cs, vec!['一', '二', '三']);
    assert!(kanji_from_str("abc あいう").is_empty());
}

#[test]
fn store_is_key_sorted() {
    let s = Store::from_entries(vec![entry('顔', &[], &[]), entry('刀', &[], &[])]);
    assert_eq!(s.len(), 2);
    let keys: Vec<char> = s.list.iter().map(|e| e.kanji.get()).collect();
    // 刀 (U+5200) sorts before 顔 (U+984A).
    assert_eq!(keys, vec!['刀', '顔']);
}

#[test]
fn load_is_last_write_wins() {
    let s = Store::from_entries(vec![
        entry('一', &[], &["イチ"]),
        entry('一', &[], &["イツ"]),
    ]);
    assert_eq!(s.len(), 1);
    assert_eq!(s.list[0].onyomi, vec!["イツ".to_string()]);
}

#[test]
fn insertion_collision_reported() {
    let mut s = Store::from_entries(vec![entry('一', &[], &["イチ"])]);
    let existed = s.insert(entry('二', &[], &["ニ"]));
    assert!(!existed);
    // Inserting an entry for a kanji already present is a collision; the
    // in-memory copy is still replaced, but a caller must not persist.
    let existed = s.insert(entry('一', &[], &["イツ"]));
    assert!(existed);
    assert_eq!(s.len(), 2);
    let got = s.get(kj('一')).unwrap();
    assert_eq!(got.onyomi, vec!["イツ".to_string()]);
}

#[test]
fn get_and_first_absent() {
    let s = Store::from_entries(vec![entry('一', &[], &[])]);
    assert!(s.get(kj('一')).is_some());
    assert!(s.get(kj('二')).is_none());
    let next = s.first_absent(&vec![kj('一'), kj('二'), kj('三')]);
    assert_eq!(next.map(|k| k.get()), Some('二'));
    let none = s.first_absent(&vec![kj('一')]);
    assert!(none.is_none());
}

#[test]
fn save_sorts_keys_and_parents() {
    let s = Store::from_entries(vec![
        entry('顔', &['顔', '刀'], &["ガン"]),
        entry('刀', &[], &["トウ"]),
    ]);
    let out = s.save_entries();
    let keys: Vec<char> = out.iter().map(|e| e.kanji.get()).collect();
    assert_eq!(keys, vec!['刀', '顔']);
    let oya: Vec<char> = out[1].oya.iter().map(|k| k.get()).collect();
    // 刀 (U+5200) sorts before 顔 (U+984A).
    assert_eq!(oya, vec!['刀', '顔']);
}

#[test]
fn save_then_load_round_trips() {
    let mut rich = entry('顔', &['顔', '刀'], &["ガン"]);
    rich.imi = vec![("かお".to_string(), "face".to_string())];
    let s = Store::from_entries(vec![rich, entry('刀', &[], &["トウ"]), entry('一', &[], &[])]);
    let saved = s.save_entries();
    let expect: Vec<(char, Vec<char>, Vec<String>, Vec<(String, String)>)> = saved
        .iter()
        .map(|e| {
            (
                e.kanji.get(),
                e.oya.iter().map(|k| k.get()).collect(),
                e.onyomi.clone(),
                e.imi.clone(),
            )
        })
        .collect();
    let reloaded = Store::from_entries(saved);
    let got: Vec<(char, Vec<char>, Vec<String>, Vec<(String, String)>)> = reloaded
        .list
        .iter()
        .map(|e| {
            (
                e.kanji.get(),
                e.oya.iter().map(|k| k.get()).collect(),
                e.onyomi.clone(),
                e.imi.clone(),
            )
        })
        .collect();
    assert_eq!(got, expect);
    assert_eq!(reloaded.len(), 3);
    assert_eq!(
        reloaded.get(kj('顔')).unwrap().imi,
        vec![("かお".to_string(), "face".to_string())]
    );
}

#[test]
fn error_messages() {
    assert_eq!(
        Error::Exists(kj('一')).describe(),
        "一 already has an entry in the database."
    );
    assert_eq!(
        Error::Missing(kj('二')).describe(),
        "二 is missing from the database."
    );
    assert_eq!(Error::NotKanji("xyz".to_string()).describe(), "xyz is not Kanji.");
    assert_eq!(Error::IO("file gone".to_string()).describe(), "file gone");
    assert_eq!(Error::JSON("bad record".to_string()).describe(), "bad record");
    assert_eq!(Error::Time("clock skew".to_string()).describe(), "clock skew");
}
