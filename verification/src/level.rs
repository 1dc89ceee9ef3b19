//! The exam-level lookup: an external static mapping from kanji to
//! proficiency level, consumed as a black box and exposed as a plain rank.

use vstd::prelude::*;
use crate::graph::DB;
use crate::store::EntryV;
use crate::Kanji;

verus! {

/// The proficiency rank of a character under the external static level
/// table: 0 for the easiest exam level through 11 for the hardest
/// (0 = Ten, 1 = Nine, ..., 7 = Three, 8 = PreTwo, 9 = Two, 10 = PreOne,
/// 11 = One), or `None` for a character the table does not list. The table
/// is a fixed precomputed mapping, so the result depends on the character
/// alone.
pub uninterp spec fn level_rank_of(c: char) -> Option<u8>;

/// Relies on `kanji::level_table` and `kanji::Kanji::new`: the exam-level
/// table is a fixed static mapping from kanji to level, queried read-only;
/// the twelve levels are carried over as the ranks 0 through 11, easiest
/// first.
#[verifier::external_body]
fn level_rank(c: char) -> (r: Option<u8>)
    ensures
        r == level_rank_of(c),
{
    let table = kanji::level_table();
    let k = match kanji::Kanji::new(c) {
        Some(k) => k,
        None => return None,
    };
    table.get(&k).map(|l| match l {
        kanji::Level::Ten => 0, kanji::Level::Nine => 1, kanji::Level::Eight => 2,
        kanji::Level::Seven => 3, kanji::Level::Six => 4, kanji::Level::Five => 5,
        kanji::Level::Four => 6, kanji::Level::Three => 7, kanji::Level::PreTwo => 8,
        kanji::Level::Two => 9, kanji::Level::PreOne => 10, kanji::Level::One => 11,
    })
}

/// The level pairs of the first `n` stored entries: every entry whose kanji
/// the external table lists, in store order, with its rank.
pub open spec fn spec_levels(s: Seq<EntryV>, n: int) -> Seq<(char, u8)>
    decreases n,
{
    if n <= 0 {
        Seq::<(char, u8)>::empty()
    } else {
        spec_levels(s, n - 1) + match level_rank_of(s[n - 1].kanji) {
            Some(r) => seq![(s[n - 1].kanji, r)],
            None => Seq::<(char, u8)>::empty(),
        }
    }
}

impl DB {
    /// Fetch the exam rank of every kanji in the store that the external
    /// level table lists, in store order.
    pub fn levels(&self) -> (r: Vec<(Kanji, u8)>)
        ensures
            r@.map_values(|p: (Kanji, u8)| (p.0.spec_get(), p.1)) == spec_levels(
                self.entries.entries(),
                self.entries.entries().len() as int,
            ),
    {
        let ghost s = self.entries.entries();
        let mut r: Vec<(Kanji, u8)> = Vec::new();
        let mut i: usize = 0;
        proof {
            assert(r@.map_values(|p: (Kanji, u8)| (p.0.spec_get(), p.1)) =~= spec_levels(s, 0));
        }
        while i < self.entries.list.len()
            invariant
                s == self.entries.entries(),
                i <= s.len(),
                r@.map_values(|p: (Kanji, u8)| (p.0.spec_get(), p.1)) == spec_levels(s, i as int),
            decreases s.len() - i,
        {
            let k = self.entries.list[i].kanji;
            proof {
                assert(s[i as int].kanji == k.spec_get());
            }
            match level_rank(k.get()) {
                Some(rank) => {
                    r.push((k, rank));
                    proof {
                        assert(r@.map_values(|p: (Kanji, u8)| (p.0.spec_get(), p.1)) =~= spec_levels(
                            s,
                            i + 1,
                        ));
                    }
                },
                None => {
                    proof {
                        assert(r@.map_values(|p: (Kanji, u8)| (p.0.spec_get(), p.1)) =~= spec_levels(
                            s,
                            i + 1,
                        ));
                    }
                },
            }
            i = i + 1;
        }
        r
    }
}

} // verus!
