//! A map from strings to strings, kept as a list of entries with distinct
//! keys. Query strings and path parameters are held in it.
//!
//! A hash map keyed by strings is not used: vstd specifies `HashMap` only
//! for keys that obey its key model, and gives `String` none, so nothing
//! could be proved of what such a map holds.

use crate::text::{chars_of, same_text};
use vstd::prelude::*;

verus! {

/// The map that a list of entries stands for: later entries win.
pub open spec fn entries_map(e: Seq<(String, String)>) -> Map<Seq<char>, Seq<char>>
    decreases e.len(),
{
    if e.len() == 0 {
        Map::empty()
    } else {
        entries_map(e.drop_last()).insert(e.last().0@, e.last().1@)
    }
}

/// No two entries have the same key.
pub open spec fn distinct_keys(e: Seq<(String, String)>) -> bool {
    forall|i: int, j: int| 0 <= i < j < e.len() ==> (#[trigger] e[i]).0@ != (#[trigger] e[j]).0@
}

/// No entry has the key `k`.
spec fn key_absent(e: Seq<(String, String)>, k: Seq<char>) -> bool {
    forall|i: int| 0 <= i < e.len() ==> (#[trigger] e[i]).0@ != k
}

/// A key that no entry has is not in the map.
proof fn lemma_absent_key(e: Seq<(String, String)>, k: Seq<char>)
    requires
        key_absent(e, k),
    ensures
        !entries_map(e).contains_key(k),
    decreases e.len(),
{
    if e.len() > 0 {
        assert(e.last() == e[e.len() - 1]);
        assert forall|i: int| 0 <= i < e.drop_last().len() implies (#[trigger] e.drop_last()[i]).0@
            != k by {
            assert(e.drop_last()[i] == e[i]);
        }
        lemma_absent_key(e.drop_last(), k);
    }
}

/// With distinct keys, each entry's key maps to its value.
proof fn lemma_entry_present(e: Seq<(String, String)>, i: int)
    requires
        distinct_keys(e),
        0 <= i < e.len(),
    ensures
        entries_map(e).contains_key(e[i].0@),
        entries_map(e)[e[i].0@] == e[i].1@,
    decreases e.len(),
{
    if i < e.len() - 1 {
        assert(e.drop_last()[i] == e[i]);
        assert forall|a: int, b: int| 0 <= a < b < e.drop_last().len() implies (
        #[trigger] e.drop_last()[a]).0@ != (#[trigger] e.drop_last()[b]).0@ by {
            assert(e.drop_last()[a] == e[a]);
            assert(e.drop_last()[b] == e[b]);
        }
        lemma_entry_present(e.drop_last(), i);
        assert(e[i].0@ != e[e.len() - 1].0@);
    }
}

/// With distinct keys the map is finite and has one key for each entry.
proof fn lemma_entries_len(e: Seq<(String, String)>)
    requires
        distinct_keys(e),
    ensures
        entries_map(e).dom().finite(),
        entries_map(e).dom().len() == e.len(),
    decreases e.len(),
{
    if e.len() > 0 {
        let front = e.drop_last();
        assert forall|a: int, b: int| 0 <= a < b < front.len() implies (#[trigger] front[a]).0@ != (
        #[trigger] front[b]).0@ by {
            assert(front[a] == e[a]);
            assert(front[b] == e[b]);
        }
        lemma_entries_len(front);
        assert forall|i: int| 0 <= i < front.len() implies (#[trigger] front[i]).0@
            != e.last().0@ by {
            assert(front[i] == e[i]);
            assert(e.last() == e[e.len() - 1]);
        }
        lemma_absent_key(front, e.last().0@);
        assert(entries_map(e).dom() =~= entries_map(front).dom().insert(e.last().0@));
    }
}

/// Replacing the value of the entry at `i` sets that key in the map.
proof fn lemma_update_entry(e: Seq<(String, String)>, i: int, key: String, value: String)
    requires
        distinct_keys(e),
        0 <= i < e.len(),
        key@ == e[i].0@,
    ensures
        distinct_keys(e.update(i, (key, value))),
        entries_map(e.update(i, (key, value))) == entries_map(e).insert(key@, value@),
    decreases e.len(),
{
    let u = e.update(i, (key, value));
    assert forall|a: int, b: int| 0 <= a < b < u.len() implies (#[trigger] u[a]).0@ != (
    #[trigger] u[b]).0@ by {
        assert(u[a].0@ == e[a].0@);
        assert(u[b].0@ == e[b].0@);
    }
    let front = e.drop_last();
    assert forall|a: int, b: int| 0 <= a < b < front.len() implies (#[trigger] front[a]).0@ != (
    #[trigger] front[b]).0@ by {
        assert(front[a] == e[a]);
        assert(front[b] == e[b]);
    }
    if i == e.len() - 1 {
        assert(u.drop_last() =~= front);
        assert(entries_map(u) =~= entries_map(e).insert(key@, value@));
    } else {
        assert(front[i] == e[i]);
        lemma_update_entry(front, i, key, value);
        assert(u.drop_last() =~= front.update(i, (key, value)));
        assert(u.last() == e.last());
        assert(e[i].0@ != e[e.len() - 1].0@);
        assert(entries_map(u) =~= entries_map(e).insert(key@, value@));
    }
}

/// A map from strings to strings.
pub struct StringMap {
    entries: Vec<(String, String)>,
}

impl View for StringMap {
    type V = Map<Seq<char>, Seq<char>>;

    closed spec fn view(&self) -> Map<Seq<char>, Seq<char>> {
        entries_map(self.entries@)
    }
}

impl StringMap {
    /// No key occurs twice.
    #[verifier::type_invariant]
    spec fn distinct(&self) -> bool {
        distinct_keys(self.entries@)
    }

    /// The empty map.
    pub fn new() -> (m: StringMap)
        ensures
            m@ == Map::<Seq<char>, Seq<char>>::empty(),
    {
        StringMap { entries: Vec::new() }
    }

    /// The index of the entry with the key `key`.
    fn position(&self, key: &str) -> (r: Option<usize>)
        ensures
            match r {
                Some(i) => i < self.entries@.len() && self.entries@[i as int].0@ == key@,
                None => key_absent(self.entries@, key@),
            },
    {
        let wanted = chars_of(key);
        let mut i: usize = 0;
        while i < self.entries.len()
            invariant
                i <= self.entries@.len(),
                wanted@ == key@,
                forall|j: int| 0 <= j < i ==> (#[trigger] self.entries@[j]).0@ != key@,
            decreases self.entries.len() - i,
        {
            if same_text(wanted.as_slice(), self.entries[i].0.as_str()) {
                return Some(i);
            }
            i += 1;
        }
        None
    }

    /// Sets `key` to `value`, whether or not the key was there.
    pub fn insert(&mut self, key: String, value: String)
        ensures
            final(self)@ == old(self)@.insert(key@, value@),
    {
        proof {
            use_type_invariant(&*self);
        }
        let found = self.position(key.as_str());
        let ghost before = self.entries@;
        let mut entries: Vec<(String, String)> = Vec::new();
        std::mem::swap(&mut self.entries, &mut entries);
        match found {
            Some(i) => {
                proof {
                    lemma_update_entry(before, i as int, key, value);
                }
                entries.set(i, (key, value));
            },
            None => {
                entries.push((key, value));
                assert(entries@.drop_last() =~= before);
                assert forall|a: int, b: int| 0 <= a < b < entries@.len() implies (
                #[trigger] entries@[a]).0@ != (#[trigger] entries@[b]).0@ by {
                    assert(entries@[a] == before[a]);
                    if b < before.len() {
                        assert(entries@[b] == before[b]);
                    }
                }
            },
        }
        std::mem::swap(&mut self.entries, &mut entries);
    }

    /// The value of `key`, if the map has it.
    pub fn get(&self, key: &str) -> (r: Option<&String>)
        ensures
            match r {
                Some(v) => self@.contains_key(key@) && v@ == self@[key@],
                None => !self@.contains_key(key@),
            },
    {
        proof {
            use_type_invariant(self);
        }
        match self.position(key) {
            Some(i) => {
                proof {
                    lemma_entry_present(self.entries@, i as int);
                }
                Some(&self.entries[i].1)
            },
            None => {
                proof {
                    lemma_absent_key(self.entries@, key@);
                }
                None
            },
        }
    }

    /// Whether the map has `key`.
    pub fn contains_key(&self, key: &str) -> (r: bool)
        ensures
            r == self@.contains_key(key@),
    {
        self.get(key).is_some()
    }

    /// The number of keys.
    pub fn len(&self) -> (n: usize)
        ensures
            self@.dom().finite(),
            n == self@.dom().len(),
    {
        proof {
            use_type_invariant(self);
            lemma_entries_len(self.entries@);
        }
        self.entries.len()
    }

    /// Whether the map has no key.
    pub fn is_empty(&self) -> (r: bool)
        ensures
            r == (self@ == Map::<Seq<char>, Seq<char>>::empty()),
    {
        proof {
            use_type_invariant(self);
            lemma_entries_len(self.entries@);
            if self.entries@.len() == 0 {
                assert(self@ =~= Map::<Seq<char>, Seq<char>>::empty());
            }
        }
        self.entries.len() == 0
    }

    /// The entries, in the order in which their keys first came.
    pub fn entries(&self) -> (e: &Vec<(String, String)>)
        ensures
            distinct_keys(e@),
            entries_map(e@) == self@,
    {
        proof {
            use_type_invariant(self);
        }
        &self.entries
    }
}

impl Clone for StringMap {
    fn clone(&self) -> (m: StringMap)
        ensures
            m@ == self@,
    {
        proof {
            use_type_invariant(self);
        }
        let mut entries: Vec<(String, String)> = Vec::new();
        let mut i: usize = 0;
        while i < self.entries.len()
            invariant
                i <= self.entries@.len(),
                entries@ == self.entries@.take(i as int),
            decreases self.entries.len() - i,
        {
            let k = self.entries[i].0.clone();
            let v = self.entries[i].1.clone();
            entries.push((k, v));
            assert(self.entries@.take(i + 1) =~= self.entries@.take(i as int).push(
                self.entries@[i as int],
            ));
            i += 1;
        }
        assert(self.entries@.take(self.entries@.len() as int) =~= self.entries@);
        StringMap { entries }
    }
}

} // verus!
