//! An in-memory knowledge base of kanji characters and the derivational
//! parent/child relationships between them: a keyed entry store, a directed
//! relationship graph whose edges are classified by phonetic relationship,
//! reachability queries over that graph, and a renderer that serializes a
//! graph into a textual graph-description format.

pub mod kana;
pub mod inherit;
pub mod store;
pub mod graph;
pub mod query;
pub mod filter;
pub mod text;
pub mod error;
pub mod level;
pub mod dot;

use vstd::prelude::*;

verus! {

/// The recognized kanji code ranges: the standard CJK block, the CJK
/// Compatibility Ideographs, and extensions A through G.
pub open spec fn is_kanji_char(c: char) -> bool {
    ||| 0x4e00 <= c as u32 <= 0x9ffc
    ||| 0xf900 <= c as u32 <= 0xfaff
    ||| 0x3400 <= c as u32 <= 0x4dbf
    ||| 0x20000 <= c as u32 <= 0x2a6dd
    ||| 0x2a700 <= c as u32 <= 0x2b734
    ||| 0x2b740 <= c as u32 <= 0x2b81d
    ||| 0x2b820 <= c as u32 <= 0x2cea1
    ||| 0x2ceb0 <= c as u32 <= 0x2ebe0
    ||| 0x30000 <= c as u32 <= 0x3134a
}

/// Two characters with the same code point are the same character.
pub proof fn lemma_char_u32_injective(a: char, b: char)
    requires
        a as u32 == b as u32,
    ensures
        a == b,
{
}

/// A single character restricted to the recognized kanji code ranges.
/// `Kanji::new` is the validating constructor; a `Kanji` is well formed
/// (`wf`) exactly when its character lies in those ranges.
#[derive(Clone, Copy, PartialEq, Eq, Structural, Debug)]
pub struct Kanji {
    pub c: char,
}

impl Kanji {
    /// The character this `Kanji` stands for.
    pub open spec fn spec_get(&self) -> char {
        self.c
    }

    /// Every constructible `Kanji` lies in the recognized code ranges.
    pub open spec fn wf(&self) -> bool {
        is_kanji_char(self.c)
    }

    /// Validate a character: `Some` exactly on the recognized kanji ranges.
    pub fn new(c: char) -> (r: Option<Kanji>)
        ensures
            is_kanji_char(c) <==> (r == Some(Kanji { c })),
            !is_kanji_char(c) <==> (r == None::<Kanji>),
    {
        let u = c as u32;
        if (0x4e00 <= u && u <= 0x9ffc)
            || (0xf900 <= u && u <= 0xfaff)
            || (0x3400 <= u && u <= 0x4dbf)
            || (0x20000 <= u && u <= 0x2a6dd)
            || (0x2a700 <= u && u <= 0x2b734)
            || (0x2b740 <= u && u <= 0x2b81d)
            || (0x2b820 <= u && u <= 0x2cea1)
            || (0x2ceb0 <= u && u <= 0x2ebe0)
            || (0x30000 <= u && u <= 0x3134a)
        {
            Some(Kanji { c })
        } else {
            None
        }
    }

    /// The underlying character.
    #[verifier::when_used_as_spec(spec_get)]
    pub fn get(&self) -> (c: char)
        ensures
            c == self.c,
    {
        self.c
    }
}

/// All kanji characters of a string, in order; every other character is
/// dropped.
pub fn kanji_from_str(s: &str) -> (ks: Vec<Kanji>)
    ensures
        ks@.map_values(|k: Kanji| k.spec_get()) == s@.filter(|c: char| is_kanji_char(c)),
        forall|i: int| 0 <= i < ks@.len() ==> (#[trigger] ks@[i]).wf(),
{
    let n = s.unicode_len();
    let mut ks: Vec<Kanji> = Vec::new();
    let mut i: usize = 0;
    while i < n
        invariant
            n == s@.len(),
            i <= n,
            ks@.map_values(|k: Kanji| k.spec_get()) == s@.subrange(0, i as int).filter(
                |c: char| is_kanji_char(c),
            ),
            forall|j: int| 0 <= j < ks@.len() ==> (#[trigger] ks@[j]).wf(),
        decreases n - i,
    {
        let c = s.get_char(i);
        proof {
            assert(s@.subrange(0, i + 1 as int).drop_last() =~= s@.subrange(0, i as int));
            reveal_with_fuel(Seq::filter, 2);
        }
        match Kanji::new(c) {
            Some(k) => {
                ks.push(k);
                proof {
                    assert(ks@.map_values(|k: Kanji| k.spec_get()) =~= s@.subrange(
                        0,
                        i + 1 as int,
                    ).filter(|c: char| is_kanji_char(c)));
                }
            },
            None => {
                proof {
                    assert(ks@.map_values(|k: Kanji| k.spec_get()) =~= s@.subrange(
                        0,
                        i + 1 as int,
                    ).filter(|c: char| is_kanji_char(c)));
                }
            },
        }
        i = i + 1;
    }
    proof {
        assert(s@.subrange(0, n as int) =~= s@);
    }
    ks
}

} // verus!
