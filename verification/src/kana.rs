//! Phonetic rules over kana readings: the voiced/unvoiced counterpart table,
//! the kana-to-vowel table, and the two pure predicates built on them.

use vstd::prelude::*;

verus! {

/// The voiced/unvoiced counterpart of a kana character, for the three rows
/// whose voicing is representationally regular. The table is bidirectional:
/// each unvoiced character maps to its voiced form and back. The `は` row is
/// left out on purpose, since its voicing does not follow the regular rules.
pub open spec fn spec_voiced_char(c: char) -> Option<char> {
    if c == 'か' {
        Some('が')
    } else if c == 'き' {
        Some('ぎ')
    } else if c == 'く' {
        Some('ぐ')
    } else if c == 'け' {
        Some('げ')
    } else if c == 'こ' {
        Some('ご')
    } else if c == 'が' {
        Some('か')
    } else if c == 'ぎ' {
        Some('き')
    } else if c == 'ぐ' {
        Some('く')
    } else if c == 'げ' {
        Some('け')
    } else if c == 'ご' {
        Some('こ')
    } else if c == 'さ' {
        Some('ざ')
    } else if c == 'し' {
        Some('じ')
    } else if c == 'す' {
        Some('ず')
    } else if c == 'せ' {
        Some('ぜ')
    } else if c == 'そ' {
        Some('ぞ')
    } else if c == 'ざ' {
        Some('さ')
    } else if c == 'じ' {
        Some('し')
    } else if c == 'ず' {
        Some('す')
    } else if c == 'ぜ' {
        Some('せ')
    } else if c == 'ぞ' {
        Some('そ')
    } else if c == 'た' {
        Some('だ')
    } else if c == 'ち' {
        Some('ぢ')
    } else if c == 'つ' {
        Some('づ')
    } else if c == 'て' {
        Some('で')
    } else if c == 'と' {
        Some('ど')
    } else if c == 'だ' {
        Some('た')
    } else if c == 'ぢ' {
        Some('ち')
    } else if c == 'づ' {
        Some('つ')
    } else if c == 'で' {
        Some('て')
    } else if c == 'ど' {
        Some('と')
    } else {
        None
    }
}

/// Executable counterpart of `spec_voiced_char`.
pub fn voiced_char(c: char) -> (r: Option<char>)
    ensures
        r == spec_voiced_char(c),
{
    match c {
        'か' => Some('が'),
        'き' => Some('ぎ'),
        'く' => Some('ぐ'),
        'け' => Some('げ'),
        'こ' => Some('ご'),
        'が' => Some('か'),
        'ぎ' => Some('き'),
        'ぐ' => Some('く'),
        'げ' => Some('け'),
        'ご' => Some('こ'),
        'さ' => Some('ざ'),
        'し' => Some('じ'),
        'す' => Some('ず'),
        'せ' => Some('ぜ'),
        'そ' => Some('ぞ'),
        'ざ' => Some('さ'),
        'じ' => Some('し'),
        'ず' => Some('す'),
        'ぜ' => Some('せ'),
        'ぞ' => Some('そ'),
        'た' => Some('だ'),
        'ち' => Some('ぢ'),
        'つ' => Some('づ'),
        'て' => Some('で'),
        'と' => Some('ど'),
        'だ' => Some('た'),
        'ぢ' => Some('ち'),
        'づ' => Some('つ'),
        'で' => Some('て'),
        'ど' => Some('と'),
        _ => None,
    }
}

/// The vowel class of a kana character under the five-vowel table, or `None`
/// for characters outside the table. Small-kana modifiers are not specially
/// handled.
pub open spec fn spec_vowel(c: char) -> Option<char> {
    if c == 'あ' || c == 'か' || c == 'さ' || c == 'た' || c == 'な' || c == 'は' || c == 'ま'
        || c == 'や' || c == 'ら' || c == 'わ' || c == 'が' || c == 'ざ' || c == 'だ' || c == 'ば'
        || c == 'ぱ' {
        Some('あ')
    } else if c == 'い' || c == 'き' || c == 'し' || c == 'ち' || c == 'に' || c == 'ひ'
        || c == 'み' || c == 'り' || c == 'ぎ' || c == 'じ' || c == 'ぢ' || c == 'び'
        || c == 'ぴ' {
        Some('い')
    } else if c == 'う' || c == 'く' || c == 'す' || c == 'つ' || c == 'ぬ' || c == 'ふ'
        || c == 'む' || c == 'ゆ' || c == 'る' || c == 'ぐ' || c == 'ず' || c == 'づ' || c == 'ぶ'
        || c == 'ぷ' {
        Some('う')
    } else if c == 'え' || c == 'け' || c == 'せ' || c == 'て' || c == 'ね' || c == 'へ'
        || c == 'め' || c == 'れ' || c == 'げ' || c == 'ぜ' || c == 'で' || c == 'べ'
        || c == 'ぺ' {
        Some('え')
    } else if c == 'お' || c == 'こ' || c == 'そ' || c == 'と' || c == 'の' || c == 'ほ'
        || c == 'も' || c == 'よ' || c == 'ろ' || c == 'ご' || c == 'ぞ' || c == 'ど' || c == 'ぼ'
        || c == 'ぽ' {
        Some('お')
    } else {
        None
    }
}

/// Executable counterpart of `spec_vowel`.
pub fn vowel(c: char) -> (r: Option<char>)
    ensures
        r == spec_vowel(c),
{
    match c {
        'あ' | 'か' | 'さ' | 'た' | 'な' | 'は' | 'ま' | 'や' | 'ら' | 'わ' => Some('あ'),
        'が' | 'ざ' | 'だ' | 'ば' | 'ぱ' => Some('あ'),
        'い' | 'き' | 'し' | 'ち' | 'に' | 'ひ' | 'み' | 'り' => Some('い'),
        'ぎ' | 'じ' | 'ぢ' | 'び' | 'ぴ' => Some('い'),
        'う' | 'く' | 'す' | 'つ' | 'ぬ' | 'ふ' | 'む' | 'ゆ' | 'る' => Some('う'),
        'ぐ' | 'ず' | 'づ' | 'ぶ' | 'ぷ' => Some('う'),
        'え' | 'け' | 'せ' | 'て' | 'ね' | 'へ' | 'め' | 'れ' => Some('え'),
        'げ' | 'ぜ' | 'で' | 'べ' | 'ぺ' => Some('え'),
        'お' | 'こ' | 'そ' | 'と' | 'の' | 'ほ' | 'も' | 'よ' | 'ろ' => Some('お'),
        'ご' | 'ぞ' | 'ど' | 'ぼ' | 'ぽ' => Some('お'),
        _ => None,
    }
}

/// Two readings form a voiced pair: both are non-empty, the first characters
/// are voiced/unvoiced counterparts under the table, and the remainders are
/// identical character for character.
pub open spec fn spec_is_voiced_pair(a: Seq<char>, b: Seq<char>) -> bool {
    &&& a.len() > 0
    &&& b.len() > 0
    &&& spec_voiced_char(a[0]) == Some(b[0])
    &&& a.skip(1) == b.skip(1)
}

/// Two readings rhyme: both are non-empty, the first characters map to the
/// same vowel class under the table (in particular both are in the table),
/// and the remainders are identical character for character.
pub open spec fn spec_is_rhyme(a: Seq<char>, b: Seq<char>) -> bool {
    &&& a.len() > 0
    &&& b.len() > 0
    &&& spec_vowel(a[0]) is Some
    &&& spec_vowel(a[0]) == spec_vowel(b[0])
    &&& a.skip(1) == b.skip(1)
}

/// Do the non-first characters of two equally long readings all match?
fn tails_equal(a: &str, b: &str) -> (r: bool)
    requires
        a@.len() == b@.len(),
        a@.len() > 0,
    ensures
        r == (a@.skip(1) == b@.skip(1)),
{
    let n = a.unicode_len();
    let mut i: usize = 1;
    while i < n
        invariant
            n == a@.len() == b@.len(),
            1 <= i <= n,
            forall|j: int| 1 <= j < i ==> a@[j] == b@[j],
        decreases n - i,
    {
        if a.get_char(i) != b.get_char(i) {
            proof {
                assert(a@.skip(1)[i - 1] != b@.skip(1)[i - 1]);
            }
            return false;
        }
        i = i + 1;
    }
    proof {
        assert(a@.skip(1) =~= b@.skip(1));
    }
    true
}

/// Decide whether reading `a` is a voiced variant of reading `b`.
pub fn is_voiced_pair(a: &str, b: &str) -> (r: bool)
    ensures
        r == spec_is_voiced_pair(a@, b@),
{
    let alen = a.unicode_len();
    let blen = b.unicode_len();
    if alen == 0 || blen == 0 {
        return false;
    }
    if alen != blen {
        proof {
            if a@.skip(1) == b@.skip(1) {
                assert(a@.skip(1).len() == b@.skip(1).len());
            }
        }
        return false;
    }
    match voiced_char(a.get_char(0)) {
        Some(v) => v == b.get_char(0) && tails_equal(a, b),
        None => false,
    }
}

/// Decide whether readings `a` and `b` rhyme (same vowel skeleton).
pub fn is_rhyme(a: &str, b: &str) -> (r: bool)
    ensures
        r == spec_is_rhyme(a@, b@),
{
    let alen = a.unicode_len();
    let blen = b.unicode_len();
    if alen == 0 || blen == 0 {
        return false;
    }
    if alen != blen {
        proof {
            if a@.skip(1) == b@.skip(1) {
                assert(a@.skip(1).len() == b@.skip(1).len());
            }
        }
        return false;
    }
    match vowel(a.get_char(0)) {
        Some(va) => {
            match vowel(b.get_char(0)) {
                Some(vb) => va == vb && tails_equal(a, b),
                None => false,
            }
        },
        None => false,
    }
}

/// The counterpart table is bidirectional, so the voiced-pair predicate is
/// symmetric: `is_voiced_pair(a, b) == is_voiced_pair(b, a)` for all
/// readings.
pub proof fn lemma_voiced_pair_symmetric(a: Seq<char>, b: Seq<char>)
    ensures
        spec_is_voiced_pair(a, b) == spec_is_voiced_pair(b, a),
{
}

/// Rhyme is reflexive on readings whose first character is in the vowel
/// table: `is_rhyme(a, a)` holds for any such reading.
pub proof fn lemma_rhyme_reflexive(a: Seq<char>)
    requires
        a.len() > 0,
        spec_vowel(a[0]) is Some,
    ensures
        spec_is_rhyme(a, a),
{
}

} // verus!
