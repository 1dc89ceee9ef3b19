//! The classified phonetic relationship between a parent and child kanji's
//! readings, and the classifier that computes it from the two entries'
//! reading lists.

use vstd::prelude::*;
use crate::kana::{is_rhyme, is_voiced_pair, spec_is_rhyme, spec_is_voiced_pair};

verus! {

/// The relationship between a parent's and a child's readings, ordered by
/// specificity of match. It is computed once at edge-creation time and never
/// recomputed.
#[derive(Clone, Copy, PartialEq, Eq, Structural, Debug)]
pub enum Inherit {
    /// The child's first reading is exactly the parent's first reading.
    Same,
    /// A non-first reading of the child equals one of the parent's readings.
    Second,
    /// The child's first reading is a voiced variant of the parent's.
    Voicing,
    /// The child's first reading rhymes with the parent's.
    Rhyme,
    /// The first consonant of the child is at least the same as the parent's.
    Consonant,
    /// Both sides have readings, but none of the above relations hold.
    Differ,
    /// One or both sides lack any reading.
    Absent,
}

/// The fixed visual attribute a renderer attaches to an edge with the given
/// classification.
pub open spec fn spec_dot_attr(i: Inherit) -> Seq<char> {
    match i {
        Inherit::Same => "color=green"@,
        Inherit::Second => "color=greenyellow"@,
        Inherit::Voicing => "color=yellow"@,
        Inherit::Rhyme => "color=yellow"@,
        Inherit::Consonant => "color=orange"@,
        Inherit::Differ => "color=red"@,
        Inherit::Absent => "color=gray"@,
    }
}

impl Inherit {
    /// The edge attribute used in the graph-description output: a fixed
    /// color per classification value.
    pub fn to_dot_attr(&self) -> (r: String)
        ensures
            r@ == spec_dot_attr(*self),
    {
        match self {
            Inherit::Same => String::from_str("color=green"),
            Inherit::Second => String::from_str("color=greenyellow"),
            Inherit::Voicing => String::from_str("color=yellow"),
            Inherit::Rhyme => String::from_str("color=yellow"),
            Inherit::Consonant => String::from_str("color=orange"),
            Inherit::Differ => String::from_str("color=red"),
            Inherit::Absent => String::from_str("color=gray"),
        }
    }
}

/// Does some reading in `xs` equal some reading in `ys`?
pub open spec fn spec_shares_reading(xs: Seq<Seq<char>>, ys: Seq<Seq<char>>) -> bool {
    exists|i: int, j: int| 0 <= i < xs.len() && 0 <= j < ys.len() && xs[i] == ys[j]
}

/// The classification of a parent-to-child edge, decided from the child's
/// and the parent's reading lists in priority order: `Same`, then `Voicing`,
/// then `Rhyme`, then `Second`, then `Differ`; `Absent` when either side has
/// no reading at all. Exactly one case applies to any pair of reading lists.
pub open spec fn spec_classify(child: Seq<Seq<char>>, parent: Seq<Seq<char>>) -> Inherit {
    if child.len() == 0 || parent.len() == 0 {
        Inherit::Absent
    } else if child[0] == parent[0] {
        Inherit::Same
    } else if spec_is_voiced_pair(child[0], parent[0]) {
        Inherit::Voicing
    } else if spec_is_rhyme(child[0], parent[0]) {
        Inherit::Rhyme
    } else if spec_shares_reading(child, parent) {
        Inherit::Second
    } else {
        Inherit::Differ
    }
}

/// Does `rs` hold a reading equal to `s`?
fn contains_reading(rs: &Vec<String>, s: &String) -> (r: bool)
    ensures
        r == exists|j: int| 0 <= j < rs@.len() && rs.deep_view()[j] == s@,
{
    let mut j: usize = 0;
    while j < rs.len()
        invariant
            j <= rs@.len(),
            forall|k: int| 0 <= k < j ==> rs.deep_view()[k] != s@,
        decreases rs@.len() - j,
    {
        proof {
            assert(rs.deep_view()[j as int] == rs@[j as int]@);
        }
        if rs[j] == *s {
            assert(rs.deep_view()[j as int] == s@);
            return true;
        }
        j = j + 1;
    }
    false
}

/// Classify the relationship between a child's readings and a parent's
/// readings.
pub fn classify(child: &Vec<String>, parent: &Vec<String>) -> (r: Inherit)
    ensures
        r == spec_classify(child.deep_view(), parent.deep_view()),
{
    if child.len() == 0 || parent.len() == 0 {
        return Inherit::Absent;
    }
    let a = &child[0];
    let b = &parent[0];
    proof {
        assert(child.deep_view()[0] == child@[0]@);
        assert(parent.deep_view()[0] == parent@[0]@);
    }
    if *a == *b {
        return Inherit::Same;
    }
    if is_voiced_pair(a.as_str(), b.as_str()) {
        return Inherit::Voicing;
    }
    if is_rhyme(a.as_str(), b.as_str()) {
        return Inherit::Rhyme;
    }
    let mut i: usize = 0;
    while i < child.len()
        invariant
            i <= child@.len(),
            child@.len() > 0,
            parent@.len() > 0,
            child.deep_view()[0] != parent.deep_view()[0],
            !spec_is_voiced_pair(child.deep_view()[0], parent.deep_view()[0]),
            !spec_is_rhyme(child.deep_view()[0], parent.deep_view()[0]),
            forall|k: int, j: int|
                0 <= k < i && 0 <= j < parent@.len() ==> child.deep_view()[k]
                    != parent.deep_view()[j],
        decreases child@.len() - i,
    {
        proof {
            assert(child.deep_view()[i as int] == child@[i as int]@);
        }
        if contains_reading(parent, &child[i]) {
            assert(spec_shares_reading(child.deep_view(), parent.deep_view()));
            return Inherit::Second;
        }
        i = i + 1;
    }
    assert(!spec_shares_reading(child.deep_view(), parent.deep_view()));
    Inherit::Differ
}

/// Classifier exclusivity: for any two reading lists exactly one
/// classification is selected, and each classification holds if and only if
/// its guard does, under the documented priority order.
pub proof fn lemma_classify_exclusive(child: Seq<Seq<char>>, parent: Seq<Seq<char>>)
    ensures
        spec_classify(child, parent) != Inherit::Consonant,
        (spec_classify(child, parent) == Inherit::Absent) <==> (child.len() == 0 || parent.len()
            == 0),
        (spec_classify(child, parent) == Inherit::Same) <==> (child.len() > 0 && parent.len() > 0
            && child[0] == parent[0]),
        (spec_classify(child, parent) == Inherit::Voicing) <==> (child.len() > 0 && parent.len()
            > 0 && child[0] != parent[0] && spec_is_voiced_pair(child[0], parent[0])),
        (spec_classify(child, parent) == Inherit::Rhyme) <==> (child.len() > 0 && parent.len() > 0
            && child[0] != parent[0] && !spec_is_voiced_pair(child[0], parent[0])
            && spec_is_rhyme(child[0], parent[0])),
        (spec_classify(child, parent) == Inherit::Second) <==> (child.len() > 0 && parent.len() > 0
            && child[0] != parent[0] && !spec_is_voiced_pair(child[0], parent[0])
            && !spec_is_rhyme(child[0], parent[0]) && spec_shares_reading(child, parent)),
        (spec_classify(child, parent) == Inherit::Differ) <==> (child.len() > 0 && parent.len() > 0
            && child[0] != parent[0] && !spec_is_voiced_pair(child[0], parent[0])
            && !spec_is_rhyme(child[0], parent[0]) && !spec_shares_reading(child, parent)),
{
}

} // verus!
