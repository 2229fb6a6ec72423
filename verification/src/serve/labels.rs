//! A short list of labels, each filed under a key of its own.

use crate::text::{same_text, text_view};
use vstd::prelude::*;

verus! {

/// Keys and labels, in the order in which the keys first came.
pub type Entries = Seq<(Seq<char>, Seq<char>)>;

/// The first place of a key from `i` on, or the length.
pub open spec fn place_from(e: Entries, key: Seq<char>, i: int) -> int
    decreases e.len() - i,
{
    if i >= e.len() || e[i].0 == key {
        i
    } else {
        place_from(e, key, i + 1)
    }
}

/// The place of a key, or the length.
pub open spec fn place(e: Entries, key: Seq<char>) -> int {
    place_from(e, key, 0)
}

/// The label filed under a key.
pub open spec fn label_of(e: Entries, key: Seq<char>) -> Option<Seq<char>> {
    let p = place(e, key);
    if p < e.len() {
        Some(e[p].1)
    } else {
        None
    }
}

/// The entries with a label filed under a key: in its old place if the key is
/// known, at the end if it is not.
pub open spec fn with_label(e: Entries, key: Seq<char>, label: Seq<char>) -> Entries {
    let p = place(e, key);
    if p < e.len() {
        e.update(p, (key, label))
    } else {
        e.push((key, label))
    }
}

/// The entries without those of a key.
pub open spec fn without_key(e: Entries, key: Seq<char>) -> Entries
    decreases e.len(),
{
    if e.len() == 0 {
        e
    } else {
        let head = without_key(e.drop_last(), key);
        if e.last().0 == key {
            head
        } else {
            head.push(e.last())
        }
    }
}

/// No key is there twice.
pub open spec fn keys_distinct(e: Entries) -> bool {
    forall|i: int, j: int| 0 <= i < j < e.len() ==> (#[trigger] e[i]).0 != (#[trigger] e[j]).0
}

/// What the place of a key means.
pub proof fn lemma_place(e: Entries, key: Seq<char>, i: int)
    requires
        0 <= i <= e.len(),
    ensures
        i <= place_from(e, key, i) <= e.len(),
        place_from(e, key, i) < e.len() ==> e[place_from(e, key, i)].0 == key,
        forall|j: int| i <= j < place_from(e, key, i) ==> (#[trigger] e[j]).0 != key,
    decreases e.len() - i,
{
    if i < e.len() && e[i].0 != key {
        lemma_place(e, key, i + 1);
    }
}

/// What is left when a key is taken out came from the entries, in their order,
/// and nothing of the key is among it.
pub proof fn lemma_without(e: Entries, key: Seq<char>)
    ensures
        without_key(e, key).len() <= e.len(),
        forall|i: int|
            0 <= i < without_key(e, key).len() ==> (#[trigger] without_key(e, key)[i]).0 != key
                && e.contains(without_key(e, key)[i]),
        keys_distinct(e) ==> keys_distinct(without_key(e, key)),
    decreases e.len(),
{
    if e.len() > 0 {
        let h = e.drop_last();
        lemma_without(h, key);
        let w = without_key(h, key);
        let r = without_key(e, key);
        assert forall|i: int| 0 <= i < r.len() implies (#[trigger] r[i]).0 != key && e.contains(
            r[i],
        ) by {
            if i < w.len() {
                assert(w[i].0 != key && h.contains(w[i]));
                let j = choose|j: int| 0 <= j < h.len() && h[j] == w[i];
                assert(e[j] == r[i]);
            } else {
                assert(e[e.len() - 1] == r[i]);
            }
        }
        if keys_distinct(e) {
            assert(keys_distinct(h)) by {
                assert forall|i: int, j: int| 0 <= i < j < h.len() implies (#[trigger] h[i]).0
                    != (#[trigger] h[j]).0 by {
                    assert(e[i].0 != e[j].0);
                }
            }
            assert forall|i: int, j: int| 0 <= i < j < r.len() implies (#[trigger] r[i]).0 != (
            #[trigger] r[j]).0 by {
                if j < w.len() {
                    assert(w[i].0 != w[j].0);
                } else {
                    assert(h.contains(w[i]));
                    let k = choose|k: int| 0 <= k < h.len() && h[k] == w[i];
                    assert(e[k].0 != e[e.len() - 1].0);
                }
            }
        }
    }
}

/// Filing a label keeps the keys distinct.
pub proof fn lemma_with_distinct(e: Entries, key: Seq<char>, label: Seq<char>)
    requires
        keys_distinct(e),
    ensures
        keys_distinct(with_label(e, key, label)),
{
    lemma_place(e, key, 0);
    let r = with_label(e, key, label);
    assert forall|i: int, j: int| 0 <= i < j < r.len() implies (#[trigger] r[i]).0 != (
    #[trigger] r[j]).0 by {
        if j < e.len() {
            assert(e[i].0 != e[j].0);
        } else {
            assert(e[i].0 != key);
        }
    }
}

/// A key taken out is nowhere any more.
pub proof fn lemma_gone(e: Entries, key: Seq<char>)
    ensures
        label_of(without_key(e, key), key) is None,
{
    let w = without_key(e, key);
    lemma_without(e, key);
    lemma_place(w, key, 0);
    let p = place(w, key);
    if p < w.len() {
        assert(w[p].0 != key);
    }
}

/// A label filed under a key is what is found under it, and every other key
/// keeps its label.
pub proof fn lemma_with_label(e: Entries, key: Seq<char>, label: Seq<char>, other: Seq<char>)
    ensures
        label_of(with_label(e, key, label), key) == Some(label),
        other != key ==> label_of(with_label(e, key, label), other) == label_of(e, other),
{
    let r = with_label(e, key, label);
    lemma_place(e, key, 0);
    lemma_place(r, key, 0);
    lemma_place(e, other, 0);
    lemma_place(r, other, 0);
    let p = place(e, key);
    let q = place(r, key);
    assert(q == p) by {
        if q < p {
            assert(r[q].0 == e[q].0);
        } else if q > p {
            assert(r[p].0 != key);
        }
    }
    if other != key {
        let a = place(e, other);
        let b = place(r, other);
        if a < e.len() {
            assert(r[a].0 == other);
            if b < a {
                assert(e[b].0 != other);
            } else if b > a {
                assert(r[a].0 != other);
            }
        } else if b < r.len() {
            if b < e.len() {
                assert(e[b].0 != other);
            }
        }
    }
}

/// The keys and labels of a list of pairs.
pub open spec fn entries_of(v: Seq<(String, String)>) -> Entries {
    Seq::new(v.len(), |i: int| (v[i].0@, v[i].1@))
}

/// Labels filed under keys.
pub struct Labels {
    entries: Vec<(String, String)>,
}

impl View for Labels {
    type V = Entries;

    closed spec fn view(&self) -> Entries {
        entries_of(self.entries@)
    }
}

impl Labels {
    /// No key is there twice.
    pub open spec fn wf(&self) -> bool {
        keys_distinct(self@)
    }

    /// Nothing filed yet.
    pub fn new() -> (l: Labels)
        ensures
            l.wf(),
            l@ == Entries::empty(),
    {
        let l = Labels { entries: Vec::new() };
        assert(l@ =~= Entries::empty());
        l
    }

    /// How many keys have a label.
    pub fn len(&self) -> (n: usize)
        ensures
            n == self@.len(),
    {
        self.entries.len()
    }

    fn find(&self, key: &str) -> (p: usize)
        ensures
            p == place(self@, key@),
            p <= self.entries.len(),
    {
        let mut i: usize = 0;
        while i < self.entries.len()
            invariant
                i <= self.entries.len(),
                place(self@, key@) == place_from(self@, key@, i as int),
            decreases self.entries.len() - i,
        {
            if same_text(self.entries[i].0.as_str(), key) {
                return i;
            }
            i = i + 1;
        }
        i
    }

    /// The label filed under a key.
    pub fn get(&self, key: &str) -> (label: Option<String>)
        ensures
            text_view(label) == label_of(self@, key@),
    {
        let p: usize = self.find(key);
        if p < self.entries.len() {
            Some(self.entries[p].1.clone())
        } else {
            None
        }
    }

    /// Whether a key has a label.
    pub fn has(&self, key: &str) -> (b: bool)
        ensures
            b == (label_of(self@, key@) is Some),
    {
        self.find(key) < self.entries.len()
    }

    /// File a label under a key, in place of the one it had.
    pub fn set(&mut self, key: &str, label: &str)
        requires
            old(self).wf(),
        ensures
            final(self).wf(),
            final(self)@ == with_label(old(self)@, key@, label@),
    {
        let p: usize = self.find(key);
        let entry: (String, String) = (key.to_owned(), label.to_owned());
        let ghost e = self.entries@;
        if p < self.entries.len() {
            self.entries.set(p, entry);
            assert(entries_of(self.entries@) =~= entries_of(e).update(p as int, (key@, label@)));
        } else {
            self.entries.push(entry);
            assert(entries_of(self.entries@) =~= entries_of(e).push((key@, label@)));
        }
        proof {
            lemma_with_distinct(old(self)@, key@, label@);
        }
    }

    /// Take a key and its label out.
    pub fn remove(&mut self, key: &str)
        requires
            old(self).wf(),
        ensures
            final(self).wf(),
            final(self)@ == without_key(old(self)@, key@),
    {
        let mut kept: Vec<(String, String)> = Vec::new();
        let ghost e = self@;
        let mut i: usize = 0;
        assert(e.take(0) =~= Entries::empty());
        assert(entries_of(kept@) =~= Entries::empty());
        while i < self.entries.len()
            invariant
                self@ == e,
                i <= self.entries.len(),
                entries_of(kept@) == without_key(e.take(i as int), key@),
            decreases self.entries.len() - i,
        {
            assert(e.take(i + 1).drop_last() =~= e.take(i as int));
            if !same_text(self.entries[i].0.as_str(), key) {
                let ghost before = kept@;
                kept.push((self.entries[i].0.clone(), self.entries[i].1.clone()));
                assert(entries_of(kept@) =~= entries_of(before).push(e[i as int]));
            }
            i = i + 1;
        }
        assert(e.take(e.len() as int) =~= e);
        self.entries = kept;
        proof {
            lemma_without(e, key@);
        }
    }

    /// Forget every key.
    pub fn clear(&mut self)
        ensures
            final(self).wf(),
            final(self)@ == Entries::empty(),
    {
        self.entries = Vec::new();
        assert(self@ =~= Entries::empty());
    }

    /// Every key with its label.
    pub fn all(&self) -> (v: Vec<(String, String)>)
        ensures
            entries_of(v@) == self@,
    {
        let mut v: Vec<(String, String)> = Vec::new();
        let mut i: usize = 0;
        while i < self.entries.len()
            invariant
                i <= self.entries.len(),
                v.len() == i,
                forall|k: int|
                    0 <= k < i ==> (#[trigger] v@[k]).0@ == self@[k].0 && v@[k].1@ == self@[k].1,
            decreases self.entries.len() - i,
        {
            v.push((self.entries[i].0.clone(), self.entries[i].1.clone()));
            i = i + 1;
        }
        assert(entries_of(v@) =~= self@);
        v
    }
}

/// What is filed under a key is found under it until something else is filed there or it
/// is taken out, and nothing that is done under one key changes what is found under
/// another.
pub proof fn law_what_is_filed_is_found(
    e: Entries,
    key: Seq<char>,
    label: Seq<char>,
    other: Seq<char>,
)
    ensures
        label_of(with_label(e, key, label), key) == Some(label),
        label_of(without_key(e, key), key) is None,
        other != key ==> label_of(with_label(e, key, label), other) == label_of(e, other),
        other != key ==> label_of(without_key(e, key), other) == label_of(e, other),
        label_of(Entries::empty(), key) is None,
        label_of(e, key) is Some <==> exists|i: int| 0 <= i < e.len() && (#[trigger] e[i]).0 == key,
{
    lemma_with_label(e, key, label, other);
    lemma_gone(e, key);
    lemma_place(e, key, 0);
    if other != key {
        super::roster::lemma_others_stay(e, key, other);
    }
    let p = place(e, key);
    if p < e.len() {
        assert(e[p].0 == key);
    }
}

/// One label more is filed where a key is new, and none where it is known.
pub proof fn law_a_known_key_is_filed_once(e: Entries, key: Seq<char>, label: Seq<char>)
    ensures
        with_label(e, key, label).len() == e.len() + (if label_of(e, key) is Some {
            0int
        } else {
            1int
        }),
{
    lemma_place(e, key, 0);
}

} // verus!
