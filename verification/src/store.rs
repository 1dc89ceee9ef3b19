//! The entry store: one record per known kanji, keyed by the kanji itself,
//! kept sorted ascending by key. Loading from the persisted record list is
//! last-write-wins on duplicate keys; saving normalizes each record's parent
//! list to ascending order.

use vstd::prelude::*;
use crate::Kanji;

verus! {

broadcast use vstd::seq_lib::group_to_multiset_ensures;

/// One record per known kanji: the key itself, zero or more parent kanji the
/// key derives from (a parent need not have a record of its own), the
/// Chinese-derived readings in significance order, and auxiliary descriptive
/// pairs carried through load and save verbatim.
pub struct Entry {
    pub kanji: Kanji,
    pub oya: Vec<Kanji>,
    pub onyomi: Vec<String>,
    pub imi: Vec<(String, String)>,
}

/// The mathematical content of an `Entry`: plain characters and sequences.
pub ghost struct EntryV {
    pub kanji: char,
    pub oya: Seq<char>,
    pub onyomi: Seq<Seq<char>>,
    pub imi: Seq<(Seq<char>, Seq<char>)>,
}

impl View for Entry {
    type V = EntryV;

    open spec fn view(&self) -> EntryV {
        EntryV {
            kanji: self.kanji.spec_get(),
            oya: self.oya@.map_values(|k: Kanji| k.spec_get()),
            onyomi: self.onyomi.deep_view(),
            imi: self.imi.deep_view(),
        }
    }
}

/// Strictly ascending record keys: sorted for deterministic output, and in
/// particular no duplicate keys.
pub open spec fn sorted_by_key(s: Seq<EntryV>) -> bool {
    forall|i: int, j: int| 0 <= i < j < s.len() ==> (s[i].kanji as u32) < (s[j].kanji as u32)
}

/// Does the record sequence hold a record for key `k`?
pub open spec fn seq_contains_key(s: Seq<EntryV>, k: char) -> bool {
    exists|i: int| 0 <= i < s.len() && s[i].kanji == k
}

/// Insert one record into a key-sorted record sequence: replace the record
/// with the same key if one exists, else splice the record in at its sorted
/// position.
pub open spec fn spec_insert(s: Seq<EntryV>, e: EntryV) -> Seq<EntryV>
    decreases s.len(),
{
    if s.len() == 0 {
        seq![e]
    } else if (e.kanji as u32) < (s[0].kanji as u32) {
        seq![e] + s
    } else if e.kanji == s[0].kanji {
        seq![e] + s.skip(1)
    } else {
        seq![s[0]] + spec_insert(s.skip(1), e)
    }
}

/// The store a record sequence loads to: records inserted in order, so a
/// later record with the same key wins over an earlier one.
pub open spec fn spec_load(s: Seq<EntryV>) -> Seq<EntryV>
    decreases s.len(),
{
    if s.len() == 0 {
        Seq::<EntryV>::empty()
    } else {
        spec_insert(spec_load(s.drop_last()), s.last())
    }
}

/// Inserting into a key-sorted sequence keeps it key-sorted, and the key set
/// grows by exactly the inserted key.
pub proof fn lemma_insert_sorted(s: Seq<EntryV>, e: EntryV)
    requires
        sorted_by_key(s),
    ensures
        sorted_by_key(spec_insert(s, e)),
        forall|k: char|
            #[trigger] seq_contains_key(spec_insert(s, e), k) <==> (seq_contains_key(s, k) || k
                == e.kanji),
    decreases s.len(),
{
    if s.len() == 0 {
        assert forall|k: char| #[trigger]
            seq_contains_key(spec_insert(s, e), k) <==> (seq_contains_key(s, k) || k
                == e.kanji) by {
            if seq_contains_key(spec_insert(s, e), k) {
                assert(spec_insert(s, e)[0] == e);
            }
            if k == e.kanji {
                assert(spec_insert(s, e)[0] == e);
            }
        }
    } else if (e.kanji as u32) < (s[0].kanji as u32) {
        let r = seq![e] + s;
        assert forall|k: char| #[trigger]
            seq_contains_key(r, k) <==> (seq_contains_key(s, k) || k == e.kanji) by {
            if seq_contains_key(r, k) {
                let i = choose|i: int| 0 <= i < r.len() && r[i].kanji == k;
                if i > 0 {
                    assert(s[i - 1].kanji == k);
                }
            }
            if seq_contains_key(s, k) {
                let i = choose|i: int| 0 <= i < s.len() && s[i].kanji == k;
                assert(r[i + 1].kanji == k);
            }
            if k == e.kanji {
                assert(r[0].kanji == k);
            }
        }
    } else if e.kanji == s[0].kanji {
        let r = seq![e] + s.skip(1);
        assert forall|k: char| #[trigger]
            seq_contains_key(r, k) <==> (seq_contains_key(s, k) || k == e.kanji) by {
            if seq_contains_key(r, k) {
                let i = choose|i: int| 0 <= i < r.len() && r[i].kanji == k;
                if i > 0 {
                    assert(s[i].kanji == k);
                }
            }
            if seq_contains_key(s, k) {
                let i = choose|i: int| 0 <= i < s.len() && s[i].kanji == k;
                if i > 0 {
                    assert(r[i].kanji == k);
                } else {
                    assert(r[0].kanji == k);
                }
            }
            if k == e.kanji {
                assert(r[0].kanji == k);
            }
        }
    } else {
        let tail = s.skip(1);
        assert(sorted_by_key(tail)) by {
            assert(forall|i: int, j: int|
                0 <= i < j < tail.len() ==> (tail[i].kanji as u32) < (tail[j].kanji as u32));
        }
        lemma_insert_sorted(tail, e);
        let rt = spec_insert(tail, e);
        let r = seq![s[0]] + rt;
        assert(spec_insert(s, e) == r);
        assert forall|i: int, j: int| 0 <= i < j < r.len() implies (r[i].kanji as u32)
            < (r[j].kanji as u32) by {
            if i == 0 {
                assert(seq_contains_key(rt, r[j].kanji)) by {
                    assert(rt[j - 1].kanji == r[j].kanji);
                }
                if r[j].kanji == e.kanji {
                    assert((s[0].kanji as u32) < (e.kanji as u32));
                } else {
                    let w = choose|w: int| 0 <= w < tail.len() && tail[w].kanji == r[j].kanji;
                    assert(s[w + 1].kanji == r[j].kanji);
                }
            } else {
                assert(rt[i - 1].kanji == r[i].kanji);
                assert(rt[j - 1].kanji == r[j].kanji);
            }
        }
        assert forall|k: char| #[trigger]
            seq_contains_key(r, k) <==> (seq_contains_key(s, k) || k == e.kanji) by {
            if seq_contains_key(r, k) {
                let i = choose|i: int| 0 <= i < r.len() && r[i].kanji == k;
                if i == 0 {
                    assert(s[0].kanji == k);
                } else {
                    assert(seq_contains_key(rt, k)) by {
                        assert(rt[i - 1].kanji == k);
                    }
                    if k != e.kanji {
                        let w = choose|w: int| 0 <= w < tail.len() && tail[w].kanji == k;
                        assert(s[w + 1].kanji == k);
                    }
                }
            }
            if seq_contains_key(s, k) {
                let i = choose|i: int| 0 <= i < s.len() && s[i].kanji == k;
                if i == 0 {
                    assert(r[0].kanji == k);
                } else {
                    assert(tail[i - 1].kanji == k);
                    assert(seq_contains_key(rt, k));
                    let w = choose|w: int| 0 <= w < rt.len() && rt[w].kanji == k;
                    assert(r[w + 1].kanji == k);
                }
            }
            if k == e.kanji {
                assert(seq_contains_key(rt, k));
                let w = choose|w: int| 0 <= w < rt.len() && rt[w].kanji == k;
                assert(r[w + 1].kanji == k);
            }
        }
    }
}

/// When the sequence holds the inserted key at index `i`, insertion is
/// exactly replacement at `i`.
pub proof fn lemma_insert_replaces(s: Seq<EntryV>, e: EntryV, i: int)
    requires
        sorted_by_key(s),
        0 <= i < s.len(),
        s[i].kanji == e.kanji,
    ensures
        spec_insert(s, e) == s.update(i, e),
    decreases s.len(),
{
    if i == 0 {
        assert(spec_insert(s, e) =~= s.update(0, e));
    } else {
        assert((s[0].kanji as u32) < (e.kanji as u32));
        let tail = s.skip(1);
        assert(sorted_by_key(tail)) by {
            assert(forall|x: int, y: int|
                0 <= x < y < tail.len() ==> (tail[x].kanji as u32) < (tail[y].kanji as u32));
        }
        lemma_insert_replaces(tail, e, i - 1);
        assert(spec_insert(s, e) =~= s.update(i, e));
    }
}

/// When the key is absent and `p` is the boundary between smaller and larger
/// keys, insertion is exactly a splice at `p`.
pub proof fn lemma_insert_splices(s: Seq<EntryV>, e: EntryV, p: int)
    requires
        sorted_by_key(s),
        0 <= p <= s.len(),
        forall|j: int| 0 <= j < p ==> (s[j].kanji as u32) < (e.kanji as u32),
        forall|j: int| p <= j < s.len() ==> (e.kanji as u32) < (s[j].kanji as u32),
    ensures
        spec_insert(s, e) == s.subrange(0, p) + seq![e] + s.subrange(p, s.len() as int),
    decreases s.len(),
{
    if s.len() == 0 {
        assert(spec_insert(s, e) =~= s.subrange(0, p) + seq![e] + s.subrange(p, s.len() as int));
    } else if p == 0 {
        assert(spec_insert(s, e) =~= s.subrange(0, p) + seq![e] + s.subrange(p, s.len() as int));
    } else {
        let tail = s.skip(1);
        assert(sorted_by_key(tail)) by {
            assert(forall|x: int, y: int|
                0 <= x < y < tail.len() ==> (tail[x].kanji as u32) < (tail[y].kanji as u32));
        }
        lemma_insert_splices(tail, e, p - 1);
        assert(spec_insert(s, e) =~= s.subrange(0, p) + seq![e] + s.subrange(p, s.len() as int));
    }
}

/// Loading a record sequence that is already key-sorted reproduces it
/// exactly.
pub proof fn lemma_load_sorted_identity(s: Seq<EntryV>)
    requires
        sorted_by_key(s),
    ensures
        spec_load(s) == s,
    decreases s.len(),
{
    if s.len() > 0 {
        let front = s.drop_last();
        assert(sorted_by_key(front)) by {
            assert(forall|x: int, y: int|
                0 <= x < y < front.len() ==> (front[x].kanji as u32) < (front[y].kanji as u32));
        }
        lemma_load_sorted_identity(front);
        lemma_insert_splices(front, s.last(), front.len() as int);
        assert(spec_load(s) =~= s);
    }
}

/// The key set a record sequence loads to is exactly the set of keys in the
/// sequence, and the loaded store is key-sorted.
pub proof fn lemma_load_keys(s: Seq<EntryV>)
    ensures
        sorted_by_key(spec_load(s)),
        forall|k: char|
            #[trigger] seq_contains_key(spec_load(s), k) <==> seq_contains_key(s, k),
    decreases s.len(),
{
    if s.len() == 0 {
    } else {
        lemma_load_keys(s.drop_last());
        lemma_insert_sorted(spec_load(s.drop_last()), s.last());
        assert forall|k: char| #[trigger]
            seq_contains_key(spec_load(s), k) <==> seq_contains_key(s, k) by {
            if seq_contains_key(s.drop_last(), k) {
                let i = choose|i: int| 0 <= i < s.drop_last().len() && s.drop_last()[i].kanji == k;
                assert(s[i].kanji == k);
            }
            if seq_contains_key(s, k) {
                let i = choose|i: int| 0 <= i < s.len() && s[i].kanji == k;
                if i < s.len() - 1 {
                    assert(s.drop_last()[i].kanji == k);
                }
            }
        }
    }
}

/// The index of the record with key `k`, or -1 when no record has it.
pub open spec fn key_index(s: Seq<EntryV>, k: char) -> int
    decreases s.len(),
{
    if s.len() == 0 {
        -1
    } else if s[0].kanji == k {
        0
    } else {
        let r = key_index(s.skip(1), k);
        if r < 0 {
            -1
        } else {
            r + 1
        }
    }
}

/// `key_index` finds a record exactly when the sequence holds the key, and
/// then points at a record with that key.
pub proof fn lemma_key_index(s: Seq<EntryV>, k: char)
    ensures
        seq_contains_key(s, k) ==> 0 <= key_index(s, k) < s.len() && s[key_index(s, k)].kanji == k,
        !seq_contains_key(s, k) ==> key_index(s, k) == -1,
    decreases s.len(),
{
    if s.len() == 0 {
    } else if s[0].kanji == k {
    } else {
        lemma_key_index(s.skip(1), k);
        if seq_contains_key(s, k) {
            let i = choose|i: int| 0 <= i < s.len() && s[i].kanji == k;
            assert(s.skip(1)[i - 1].kanji == k);
            assert(seq_contains_key(s.skip(1), k));
        }
        if seq_contains_key(s.skip(1), k) {
            let i = choose|i: int| 0 <= i < s.skip(1).len() && s.skip(1)[i].kanji == k;
            assert(s[i + 1].kanji == k);
        }
    }
}

/// Characters in ascending code-point order (duplicates allowed).
pub open spec fn sorted_chars(s: Seq<char>) -> bool {
    forall|i: int, j: int| 0 <= i < j < s.len() ==> (s[i] as u32) <= (s[j] as u32)
}

/// Splicing an element into a sequence adds exactly that element to its
/// multiset of elements.
pub proof fn lemma_multiset_insert_at(s: Seq<char>, pos: int, c: char)
    requires
        0 <= pos <= s.len(),
    ensures
        s.insert(pos, c).to_multiset() == s.to_multiset().insert(c),
{
    let t = s.insert(pos, c);
    assert(t.remove(pos) =~= s);
    assert(t[pos] == c);
    assert(s.to_multiset() == t.to_multiset().remove(c));
    assert(t.to_multiset().contains(c)) by {
        assert(t.contains(c));
    }
    assert(t.to_multiset() =~= s.to_multiset().insert(c));
}

/// A copy of a parent list rearranged into ascending code-point order: the
/// result is sorted and holds exactly the same kanji, multiplicity included.
pub fn sort_kanji(v: &Vec<Kanji>) -> (r: Vec<Kanji>)
    ensures
        sorted_chars(r@.map_values(|k: Kanji| k.spec_get())),
        r@.map_values(|k: Kanji| k.spec_get()).to_multiset() == v@.map_values(
            |k: Kanji| k.spec_get(),
        ).to_multiset(),
{
    let ghost vm = v@.map_values(|k: Kanji| k.spec_get());
    let mut r: Vec<Kanji> = Vec::new();
    let mut i: usize = 0;
    proof {
        assert(r@.map_values(|k: Kanji| k.spec_get()) =~= vm.subrange(0, 0));
    }
    while i < v.len()
        invariant
            vm == v@.map_values(|k: Kanji| k.spec_get()),
            i <= v@.len(),
            sorted_chars(r@.map_values(|k: Kanji| k.spec_get())),
            r@.map_values(|k: Kanji| k.spec_get()).to_multiset() == vm.subrange(
                0,
                i as int,
            ).to_multiset(),
        decreases v@.len() - i,
    {
        let ghost rm = r@.map_values(|k: Kanji| k.spec_get());
        let x = v[i];
        let c = x.get() as u32;
        // Find the first position whose character exceeds `c`.
        let mut pos: usize = 0;
        while pos < r.len() && r[pos].get() as u32 <= c
            invariant
                rm == r@.map_values(|k: Kanji| k.spec_get()),
                pos <= rm.len(),
                sorted_chars(rm),
                forall|j: int| 0 <= j < pos ==> (rm[j] as u32) <= c,
                c == x.spec_get() as u32,
            decreases r@.len() - pos,
        {
            pos = pos + 1;
        }
        proof {
            assert forall|j: int| pos <= j < rm.len() implies c <= (rm[j] as u32) by {
                assert((rm[pos as int] as u32) <= (rm[j] as u32));
            }
        }
        r.insert(pos, x);
        proof {
            let rm2 = r@.map_values(|k: Kanji| k.spec_get());
            assert(rm2 =~= rm.insert(pos as int, x.spec_get()));
            lemma_multiset_insert_at(rm, pos as int, x.spec_get());
            assert(vm.subrange(0, i + 1) =~= vm.subrange(0, i as int).push(vm[i as int]));
            assert(vm[i as int] == x.spec_get());
            assert(vm.subrange(0, i + 1).to_multiset() == vm.subrange(0, i as int).push(
                vm[i as int],
            ).to_multiset());
            assert(vm.subrange(0, i as int).push(vm[i as int]).to_multiset() == vm.subrange(
                0,
                i as int,
            ).to_multiset().insert(vm[i as int]));
            assert(rm2.to_multiset() == vm.subrange(0, i + 1).to_multiset());
        }
        i = i + 1;
    }
    proof {
        assert(vm.subrange(0, vm.len() as int) =~= vm);
    }
    r
}

/// A copy of a reading list; readings are plain values, so the copy holds
/// the very same sequences.
fn clone_strings(v: &Vec<String>) -> (r: Vec<String>)
    ensures
        r@ == v@,
{
    let mut r: Vec<String> = Vec::new();
    let mut i: usize = 0;
    while i < v.len()
        invariant
            i <= v@.len(),
            r@ == v@.subrange(0, i as int),
        decreases v@.len() - i,
    {
        r.push(v[i].clone());
        proof {
            assert(r@ =~= v@.subrange(0, i + 1));
        }
        i = i + 1;
    }
    proof {
        assert(v@.subrange(0, v@.len() as int) =~= v@);
    }
    r
}

/// A copy of the auxiliary descriptive pairs.
fn clone_pairs(v: &Vec<(String, String)>) -> (r: Vec<(String, String)>)
    ensures
        r@ == v@,
{
    let mut r: Vec<(String, String)> = Vec::new();
    let mut i: usize = 0;
    while i < v.len()
        invariant
            i <= v@.len(),
            r@ == v@.subrange(0, i as int),
        decreases v@.len() - i,
    {
        let p = &v[i];
        r.push((p.0.clone(), p.1.clone()));
        proof {
            assert(r@ =~= v@.subrange(0, i + 1));
        }
        i = i + 1;
    }
    proof {
        assert(v@.subrange(0, v@.len() as int) =~= v@);
    }
    r
}

/// `u` is the persisted normal form of `t`: record for record the same key,
/// readings and auxiliary pairs, with each parent list rearranged into
/// ascending order.
pub open spec fn save_normal(t: Seq<EntryV>, u: Seq<EntryV>) -> bool {
    &&& u.len() == t.len()
    &&& forall|i: int|
        0 <= i < t.len() ==> {
            &&& (#[trigger] u[i]).kanji == t[i].kanji
            &&& u[i].onyomi == t[i].onyomi
            &&& u[i].imi == t[i].imi
            &&& sorted_chars(u[i].oya)
            &&& u[i].oya.to_multiset() == t[i].oya.to_multiset()
        }
}

/// The in-memory store: records kept sorted ascending by kanji key.
pub struct Store {
    pub list: Vec<Entry>,
}

impl Store {
    /// The mathematical content of the store, in key order.
    pub open spec fn entries(&self) -> Seq<EntryV> {
        self.list@.map_values(|e: Entry| e@)
    }

    /// Store invariant: keys strictly ascending (hence unique).
    pub open spec fn wf(&self) -> bool {
        sorted_by_key(self.entries())
    }

    /// Does the store hold a record for key `k`?
    pub open spec fn spec_contains_key(&self, k: char) -> bool {
        seq_contains_key(self.entries(), k)
    }

    /// An empty store.
    pub fn new() -> (s: Store)
        ensures
            s.wf(),
            s.entries() == Seq::<EntryV>::empty(),
    {
        let s = Store { list: Vec::new() };
        proof {
            assert(s.entries() =~= Seq::<EntryV>::empty());
        }
        s
    }

    /// The number of records.
    pub fn len(&self) -> (n: usize)
        ensures
            n == self.entries().len(),
    {
        self.list.len()
    }

    /// The record for key `k`, if the store holds one.
    pub fn get(&self, k: Kanji) -> (r: Option<&Entry>)
        requires
            self.wf(),
        ensures
            match r {
                Some(e) => self.spec_contains_key(k.spec_get()) && e@.kanji == k.spec_get()
                    && self.entries().contains(e@),
                None => !self.spec_contains_key(k.spec_get()),
            },
    {
        let mut i: usize = 0;
        while i < self.list.len()
            invariant
                i <= self.entries().len(),
                forall|j: int| 0 <= j < i ==> self.entries()[j].kanji != k.spec_get(),
            decreases self.entries().len() - i,
        {
            if self.list[i].kanji.get() == k.get() {
                let e = &self.list[i];
                assert(self.entries()[i as int] == e@);
                return Some(e);
            }
            i = i + 1;
        }
        None
    }

    /// Insert a record. The result says whether a record with the same key
    /// already existed (a collision); the new record takes its place either
    /// way, so a caller that treats collisions as failures must not persist
    /// the store afterwards.
    pub fn insert(&mut self, e: Entry) -> (existed: bool)
        requires
            old(self).wf(),
        ensures
            final(self).wf(),
            existed == old(self).spec_contains_key(e@.kanji),
            final(self).entries() == spec_insert(old(self).entries(), e@),
    {
        let ghost s0 = self.entries();
        let ghost ev = e@;
        let key = e.kanji.get() as u32;
        let mut i: usize = 0;
        while i < self.list.len()
            invariant
                self.entries() == s0,
                s0 == old(self).entries(),
                ev == e@,
                sorted_by_key(s0),
                i <= s0.len(),
                key == ev.kanji as u32,
                forall|j: int| 0 <= j < i ==> (s0[j].kanji as u32) < key,
            decreases s0.len() - i,
        {
            let cur = self.list[i].kanji.get() as u32;
            assert(cur == s0[i as int].kanji as u32);
            if cur == key {
                proof {
                    assert(s0[i as int].kanji as u32 == ev.kanji as u32);
                    assert(s0[i as int].kanji == ev.kanji) by {
                        crate::lemma_char_u32_injective(s0[i as int].kanji, ev.kanji);
                    }
                    lemma_insert_replaces(s0, ev, i as int);
                }
                self.list.set(i, e);
                proof {
                    assert(self.entries() =~= s0.update(i as int, ev));
                }
                return true;
            }
            if cur > key {
                proof {
                    assert forall|j: int| i <= j < s0.len() implies (ev.kanji as u32) < (
                    s0[j].kanji as u32) by {
                        assert((s0[i as int].kanji as u32) <= (s0[j].kanji as u32));
                    }
                    lemma_insert_splices(s0, ev, i as int);
                    if old(self).spec_contains_key(ev.kanji) {
                        let w = choose|w: int| 0 <= w < s0.len() && s0[w].kanji == ev.kanji;
                    }
                }
                self.list.insert(i, e);
                proof {
                    assert(self.entries() =~= s0.subrange(0, i as int) + seq![ev] + s0.subrange(
                        i as int,
                        s0.len() as int,
                    ));
                    lemma_insert_sorted(s0, ev);
                }
                return false;
            }
            i = i + 1;
        }
        proof {
            assert forall|j: int| (i as int) <= j < s0.len() implies (ev.kanji as u32) < (
            s0[j].kanji as u32) by {
            }
            lemma_insert_splices(s0, ev, s0.len() as int);
            if old(self).spec_contains_key(ev.kanji) {
                let w = choose|w: int| 0 <= w < s0.len() && s0[w].kanji == ev.kanji;
            }
        }
        self.list.push(e);
        proof {
            assert(self.entries() =~= s0.subrange(0, s0.len() as int) + seq![ev] + s0.subrange(
                s0.len() as int,
                s0.len() as int,
            ));
            lemma_insert_sorted(s0, ev);
        }
        false
    }

    /// Build the keyed store from a freshly read record list: records are
    /// inserted in order, so on duplicate keys the last record wins.
    pub fn from_entries(records: Vec<Entry>) -> (s: Store)
        ensures
            s.wf(),
            s.entries() == spec_load(records@.map_values(|e: Entry| e@)),
    {
        let ghost rs = records@.map_values(|e: Entry| e@);
        let mut s = Store::new();
        let mut records = records;
        let ghost mut done: int = 0;
        proof {
            assert(rs.subrange(0, 0) =~= Seq::<EntryV>::empty());
        }
        while records.len() > 0
            invariant
                records@.map_values(|e: Entry| e@) == rs.skip(done),
                0 <= done <= rs.len(),
                s.wf(),
                s.entries() == spec_load(rs.subrange(0, done)),
            decreases records@.len(),
        {
            let ghost pre_raw = records@;
            let ghost pre = records@.map_values(|e: Entry| e@);
            let e = records.remove(0);
            proof {
                assert(pre == rs.skip(done));
                assert(pre.len() == pre_raw.len());
                assert(pre_raw.len() > 0);
                assert(done < rs.len());
                assert(pre[0] == pre_raw[0]@);
                assert(rs.skip(done)[0] == rs[done]);
                assert(e@ == rs[done]);
                assert(records@ =~= pre_raw.skip(1));
                assert forall|j: int| 0 <= j < records@.len() implies #[trigger] records@[j]@ == rs[
                    done + 1 + j
                ] by {
                    assert(records@[j] == pre_raw[j + 1]);
                    assert(pre[j + 1] == pre_raw[j + 1]@);
                    assert(pre[j + 1] == rs.skip(done)[j + 1]);
                    assert(rs.skip(done)[j + 1] == rs[done + 1 + j]);
                }
                assert(records@.map_values(|e: Entry| e@) =~= rs.skip(done + 1));
                assert(rs.subrange(0, done + 1).drop_last() =~= rs.subrange(0, done));
                assert(rs.subrange(0, done + 1).last() == rs[done]);
            }
            s.insert(e);
            proof {
                done = done + 1;
            }
        }
        proof {
            assert(rs.subrange(0, done) =~= rs);
        }
        s
    }

    /// The node index of the record with key `k`: records and graph nodes
    /// share positions, so this is also the graph-node lookup.
    pub fn index_of(&self, k: Kanji) -> (r: Option<usize>)
        requires
            self.wf(),
        ensures
            match r {
                Some(i) => self.spec_contains_key(k.spec_get()) && i as int == key_index(
                    self.entries(),
                    k.spec_get(),
                ) && i < self.entries().len() && self.entries()[i as int].kanji == k.spec_get(),
                None => !self.spec_contains_key(k.spec_get()),
            },
    {
        let ghost s = self.entries();
        let mut i: usize = 0;
        while i < self.list.len()
            invariant
                s == self.entries(),
                self.wf(),
                i <= s.len(),
                forall|j: int| 0 <= j < i ==> s[j].kanji != k.spec_get(),
            decreases s.len() - i,
        {
            if self.list[i].kanji.get() == k.get() {
                proof {
                    assert(s[i as int].kanji == k.spec_get());
                    lemma_key_index(s, k.spec_get());
                    let w = key_index(s, k.spec_get());
                    if w < i as int {
                        assert((s[w].kanji as u32) < (s[i as int].kanji as u32));
                    }
                    if w > i as int {
                        assert((s[i as int].kanji as u32) < (s[w].kanji as u32));
                    }
                }
                return Some(i);
            }
            i = i + 1;
        }
        None
    }

    /// The first candidate kanji that has no record yet, if any: used to
    /// pick the next kanji to enter from an external candidate list.
    pub fn first_absent(&self, candidates: &Vec<Kanji>) -> (r: Option<Kanji>)
        requires
            self.wf(),
        ensures
            match r {
                Some(k) => exists|i: int|
                    0 <= i < candidates@.len() && candidates@[i] == k && !self.spec_contains_key(
                        k.spec_get(),
                    ) && forall|j: int|
                        0 <= j < i ==> self.spec_contains_key(
                            (#[trigger] candidates@[j]).spec_get(),
                        ),
                None => forall|j: int|
                    0 <= j < candidates@.len() ==> self.spec_contains_key(
                        (#[trigger] candidates@[j]).spec_get(),
                    ),
            },
    {
        let mut i: usize = 0;
        while i < candidates.len()
            invariant
                self.wf(),
                i <= candidates@.len(),
                forall|j: int|
                    0 <= j < i ==> self.spec_contains_key((#[trigger] candidates@[j]).spec_get()),
            decreases candidates@.len() - i,
        {
            let k = candidates[i];
            match self.get(k) {
                None => {
                    proof {
                        assert(candidates@[i as int] == k);
                    }
                    return Some(k);
                },
                Some(_) => {},
            }
            i = i + 1;
        }
        None
    }

    /// The record list in the form the store is persisted in: records in
    /// ascending key order (the store's own order), each record's parent
    /// list rearranged into ascending order, every other field verbatim.
    pub fn save_entries(&self) -> (out: Vec<Entry>)
        requires
            self.wf(),
        ensures
            save_normal(self.entries(), out@.map_values(|e: Entry| e@)),
    {
        let mut out: Vec<Entry> = Vec::new();
        let mut i: usize = 0;
        while i < self.list.len()
            invariant
                i <= self.entries().len(),
                out@.len() == i,
                forall|j: int|
                    0 <= j < i ==> {
                        &&& (#[trigger] out@[j])@.kanji == self.entries()[j].kanji
                        &&& out@[j]@.onyomi == self.entries()[j].onyomi
                        &&& out@[j]@.imi == self.entries()[j].imi
                        &&& sorted_chars(out@[j]@.oya)
                        &&& out@[j]@.oya.to_multiset() == self.entries()[j].oya.to_multiset()
                    },
            decreases self.entries().len() - i,
        {
            let e = &self.list[i];
            let rec = Entry {
                kanji: e.kanji,
                oya: sort_kanji(&e.oya),
                onyomi: clone_strings(&e.onyomi),
                imi: clone_pairs(&e.imi),
            };
            proof {
                assert(self.entries()[i as int] == e@);
                assert(rec@.onyomi == e@.onyomi);
                assert(rec@.imi == e@.imi);
            }
            out.push(rec);
            i = i + 1;
        }
        proof {
            let u = out@.map_values(|e: Entry| e@);
            assert forall|j: int| 0 <= j < self.entries().len() implies {
                &&& (#[trigger] u[j]).kanji == self.entries()[j].kanji
                &&& u[j].onyomi == self.entries()[j].onyomi
                &&& u[j].imi == self.entries()[j].imi
                &&& sorted_chars(u[j].oya)
                &&& u[j].oya.to_multiset() == self.entries()[j].oya.to_multiset()
            } by {
                assert(u[j] == out@[j]@);
            }
        }
        out
    }
}

/// Round trip: the record list that `save_entries` produces is still
/// key-sorted, so loading it reproduces it exactly. Together with
/// `save_normal` this says the loaded store has the same key set as the
/// saved one and, per key, the same readings and auxiliary pairs, and the
/// same parents as a multiset.
pub proof fn lemma_load_after_save(t: Seq<EntryV>, u: Seq<EntryV>)
    requires
        sorted_by_key(t),
        save_normal(t, u),
    ensures
        spec_load(u) == u,
{
    assert(sorted_by_key(u));
    lemma_load_sorted_identity(u);
}

} // verus!
