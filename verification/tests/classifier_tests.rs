use kn_core::inherit::{classify, Inherit};
use kn_core::kana::{is_rhyme, is_voiced_pair, voiced_char, vowel};

fn readings(rs: &[&str]) -> Vec<String> {
    rs.iter().map(|s| s.to_string()).collect()
}

#[test]
fn voiced_pair_basic() {
    assert!(is_voiced_pair("こく", "ごく"));
    assert!(is_voiced_pair("ごく", "こく"));
    assert!(!is_voiced_pair("こく", "よく"));
    assert!(!is_voiced_pair("", "ごく"));
    assert!(!is_voiced_pair("こく", ""));
}

#[test]
fn voiced_pair_symmetry_on_table() {
    let pairs = [
        ('か', 'が'),
        ('き', 'ぎ'),
        ('く', 'ぐ'),
        ('け', 'げ'),
        ('こ', 'ご'),
        ('さ', 'ざ'),
        ('し', 'じ'),
        ('す', 'ず'),
        ('せ', 'ぜ'),
        ('そ', 'ぞ'),
        ('た', 'だ'),
        ('ち', 'ぢ'),
        ('つ', 'づ'),
        ('て', 'で'),
        ('と', 'ど'),
    ];
    for (u, v) in pairs {
        assert_eq!(voiced_char(u), Some(v));
        assert_eq!(voiced_char(v), Some(u));
        let a = u.to_string();
        let b = v.to_string();
        assert_eq!(is_voiced_pair(&a, &b), is_voiced_pair(&b, &a));
        assert!(is_voiced_pair(&a, &b));
    }
}

#[test]
fn voiced_pair_excludes_ha_row() {
    assert_eq!(voiced_char('は'), None);
    assert!(!is_voiced_pair("は", "ば"));
}

#[test]
fn voiced_pair_needs_identical_tails() {
    assert!(!is_voiced_pair("こく", "ごう"));
    assert!(!is_voiced_pair("こく", "ごくう"));
}

#[test]
fn rhyme_reflexive_on_table() {
    for c in ['あ', 'き', 'す', 'て', 'の', 'こ', 'よ'] {
        let a = c.to_string();
        assert!(vowel(c).is_some());
        assert!(is_rhyme(&a, &a));
    }
}

#[test]
fn rhyme_basic() {
    assert!(is_rhyme("こく", "よく"));
    assert!(is_rhyme("よく", "こく"));
    assert!(!is_rhyme("こく", "こけ"));
    assert!(!is_rhyme("ガン", "トウ"));
    assert!(!is_rhyme("", ""));
}

#[test]
fn classify_priority_order() {
    // Same first reading.
    assert_eq!(
        classify(&readings(&["こく"]), &readings(&["こく"])),
        Inherit::Same
    );
    // Voiced variant, not Differ and not Rhyme.
    assert_eq!(
        classify(&readings(&["ごく"]), &readings(&["こく"])),
        Inherit::Voicing
    );
    // Same vowel skeleton, differing consonant.
    assert_eq!(
        classify(&readings(&["よく"]), &readings(&["こく"])),
        Inherit::Rhyme
    );
    // A non-first reading matches.
    assert_eq!(
        classify(&readings(&["あ", "こく"]), &readings(&["こく"])),
        Inherit::Second
    );
    // Nothing matches.
    assert_eq!(
        classify(&readings(&["ガン"]), &readings(&["トウ"])),
        Inherit::Differ
    );
    // A side without readings.
    assert_eq!(classify(&readings(&[]), &readings(&["こく"])), Inherit::Absent);
    assert_eq!(classify(&readings(&["こく"]), &readings(&[])), Inherit::Absent);
}

#[test]
fn classify_exactly_one_applies() {
    let cases = [
        (vec!["こく"], vec!["こく"]),
        (vec!["ごく"], vec!["こく"]),
        (vec!["よく"], vec!["こく"]),
        (vec!["あ", "こく"], vec!["こく"]),
        (vec!["ガン"], vec!["トウ"]),
        (vec![], vec!["こく"]),
    ];
    for (c, p) in cases {
        let got = classify(&readings(&c), &readings(&p));
        let all = [
            Inherit::Same,
            Inherit::Second,
            Inherit::Voicing,
            Inherit::Rhyme,
            Inherit::Differ,
            Inherit::Absent,
        ];
        let hits = all.iter().filter(|i| **i == got).count();
        assert_eq!(hits, 1);
        assert_ne!(got, Inherit::Consonant);
    }
}

#[test]
fn dot_attr_fixed_colors() {
    assert_eq!(Inherit::Same.to_dot_attr(), "color=green");
    assert_eq!(Inherit::Second.to_dot_attr(), "color=greenyellow");
    assert_eq!(Inherit::Voicing.to_dot_attr(), "color=yellow");
    assert_eq!(Inherit::Rhyme.to_dot_attr(), "color=yellow");
    assert_eq!(Inherit::Consonant.to_dot_attr(), "color=orange");
    assert_eq!(Inherit::Differ.to_dot_attr(), "color=red");
    assert_eq!(Inherit::Absent.to_dot_attr(), "color=gray");
}
