//! Maps keyed by text.

use vstd::prelude::*;

verus! {

/// What a list of entries maps each key to; a later entry wins.
pub open spec fn entry_map<V>(entries: Seq<(String, V)>) -> Map<Seq<char>, V>
    decreases entries.len(),
{
    if entries.len() == 0 {
        Map::empty()
    } else {
        entry_map(entries.drop_last()).insert(entries.last().0@, entries.last().1)
    }
}

/// No key has two entries.
pub open spec fn one_entry_each<V>(entries: Seq<(String, V)>) -> bool {
    forall|i: int, j: int|
        0 <= i < j < entries.len() ==> (#[trigger] entries[i]).0@ != (#[trigger] entries[j]).0@
}

/// The keys and values of a list of entries.
pub proof fn lemma_entry_map<V>(entries: Seq<(String, V)>)
    ensures
        entry_map(entries).dom().finite(),
        entry_map(entries).dom().len() <= entries.len(),
        one_entry_each(entries) ==> entry_map(entries).dom().len() == entries.len(),
        forall|i: int|
            0 <= i < entries.len() ==> entry_map(entries).contains_key((#[trigger] entries[i]).0@),
        forall|i: int|
            0 <= i < entries.len() && one_entry_each(entries) ==> entry_map(
                entries,
            )[(#[trigger] entries[i]).0@] == entries[i].1,
        forall|key: Seq<char>| #[trigger]
            entry_map(entries).contains_key(key) ==> exists|i: int|
                0 <= i < entries.len() && (#[trigger] entries[i]).0@ == key,
    decreases entries.len(),
{
    if entries.len() > 0 {
        let head = entries.drop_last();
        lemma_entry_map(head);
        assert forall|key: Seq<char>| #[trigger] entry_map(entries).contains_key(key) implies exists|
            i: int,
        |
            0 <= i < entries.len() && (#[trigger] entries[i]).0@ == key by {
            if key == entries.last().0@ {
                assert(entries[entries.len() - 1].0@ == key);
            } else {
                let i = choose|i: int| 0 <= i < head.len() && (#[trigger] head[i]).0@ == key;
                assert(entries[i].0@ == key);
            }
        }
        assert forall|i: int| 0 <= i < entries.len() implies entry_map(entries).contains_key(
            (#[trigger] entries[i]).0@,
        ) by {
            if i < head.len() {
                assert(head[i] == entries[i]);
            }
        }
        if one_entry_each(entries) {
            assert forall|i: int, j: int| 0 <= i < j < head.len() implies (#[trigger] head[i]).0@
                != (#[trigger] head[j]).0@ by {
                assert(entries[i].0@ != entries[j].0@);
            }
            assert(!entry_map(head).contains_key(entries.last().0@)) by {
                if entry_map(head).contains_key(entries.last().0@) {
                    let i = choose|i: int|
                        0 <= i < head.len() && (#[trigger] head[i]).0@ == entries.last().0@;
                    assert(entries[i].0@ == entries[entries.len() - 1].0@);
                }
            }
            assert forall|i: int| 0 <= i < entries.len() implies entry_map(
                entries,
            )[(#[trigger] entries[i]).0@] == entries[i].1 by {
                if i < head.len() {
                    assert(head[i] == entries[i]);
                    assert(entries[i].0@ != entries[entries.len() - 1].0@);
                }
            }
        }
    }
}

/// A map keyed by text. No key occurs twice, and what came first stays first.
#[derive(Debug)]
pub struct StringMap<V> {
    entries: Vec<(String, V)>,
}

impl<V> View for StringMap<V> {
    type V = Map<Seq<char>, V>;

    closed spec fn view(&self) -> Map<Seq<char>, V> {
        entry_map(self.entries@)
    }
}

impl<V> StringMap<V> {
    /// Validity: no key has two entries.
    pub closed spec fn wf(self) -> bool {
        one_entry_each(self.entries@)
    }

    /// The empty map.
    pub fn new() -> (r: StringMap<V>)
        ensures
            r.wf(),
            r@ == Map::<Seq<char>, V>::empty(),
    {
        StringMap { entries: Vec::new() }
    }

    /// A map of the given entries.
    pub fn from_entries(entries: Vec<(String, V)>) -> (r: StringMap<V>)
        requires
            one_entry_each(entries@),
        ensures
            r.wf(),
            r@ == entry_map(entries@),
    {
        StringMap { entries }
    }

    /// The entries, in the order in which their keys came.
    pub fn entries(&self) -> (r: &Vec<(String, V)>)
        requires
            self.wf(),
        ensures
            one_entry_each(r@),
            self@ == entry_map(r@),
    {
        &self.entries
    }

    /// Number of keys.
    pub fn len(&self) -> (r: usize)
        requires
            self.wf(),
        ensures
            self@.dom().finite(),
            r == self@.dom().len(),
    {
        proof {
            lemma_entry_map(self.entries@);
        }
        self.entries.len()
    }

    fn find(&self, key: &String) -> (r: Option<usize>)
        requires
            self.wf(),
        ensures
            match r {
                Some(at) => {
                    &&& at < self.entries@.len()
                    &&& self.entries@[at as int].0@ == key@
                    &&& self@.contains_key(key@)
                    &&& self@[key@] == self.entries@[at as int].1
                },
                None => !self@.contains_key(key@),
            },
    {
        proof {
            lemma_entry_map(self.entries@);
        }
        let mut i: usize = 0;
        while i < self.entries.len()
            invariant
                i <= self.entries@.len(),
                self.wf(),
                forall|k: int| 0 <= k < i ==> (#[trigger] self.entries@[k]).0@ != key@,
            decreases self.entries@.len() - i,
        {
            if self.entries[i].0 == *key {
                proof {
                    lemma_entry_map(self.entries@);
                }
                return Some(i);
            }
            i += 1;
        }
        None
    }

    /// The value of a key.
    pub fn get(&self, key: &String) -> (r: Option<&V>)
        requires
            self.wf(),
        ensures
            match r {
                Some(value) => self@.contains_key(key@) && *value == self@[key@],
                None => !self@.contains_key(key@),
            },
    {
        match self.find(key) {
            Some(at) => Some(&self.entries[at].1),
            None => None,
        }
    }

    /// Give a key a value; a key that is already there stays where it is.
    pub fn insert(&mut self, key: String, value: V)
        requires
            old(self).wf(),
        ensures
            final(self).wf(),
            final(self)@ == old(self)@.insert(key@, value),
    {
        let ghost before = self.entries@;
        match self.find(&key) {
            Some(at) => {
                let ghost entry = (key, value);
                self.entries.set(at, (key, value));
                proof {
                    lemma_entry_update(before, at as int, entry);
                }
            },
            None => {
                self.entries.push((key, value));
                proof {
                    lemma_entry_map(before);
                    assert(self.entries@.drop_last() =~= before);
                    assert forall|i: int, j: int|
                        0 <= i < j < self.entries@.len() implies (#[trigger] self.entries@[i]).0@
                        != (#[trigger] self.entries@[j]).0@ by {
                        if j == before.len() {
                            assert(entry_map(before).contains_key(before[i].0@));
                        } else {
                            assert(before[i].0@ != before[j].0@);
                        }
                    }
                }
            },
        }
    }

    /// Forget every key that `keep` does not have.
    pub fn retain_keys<W>(&mut self, keep: &StringMap<W>)
        requires
            old(self).wf(),
            keep.wf(),
        ensures
            final(self).wf(),
            final(self)@ == old(self)@.restrict(keep@.dom()),
    {
        let ghost kept = keep@.dom();
        let mut i: usize = 0;
        while i < self.entries.len()
            invariant
                self.wf(),
                keep.wf(),
                kept == keep@.dom(),
                i <= self.entries@.len(),
                self@.restrict(kept) == old(self)@.restrict(kept),
                forall|k: int| 0 <= k < i ==> kept.contains((#[trigger] self.entries@[k]).0@),
            decreases self.entries@.len() - i,
        {
            if keep.get(&self.entries[i].0).is_some() {
                i += 1;
            } else {
                let ghost before = self.entries@;
                let _ = self.entries.remove(i);
                proof {
                    lemma_entry_removed(before, i as int);
                    assert(self@.restrict(kept) =~= entry_map(before).restrict(kept));
                }
            }
        }
        proof {
            lemma_entry_map(self.entries@);
            assert forall|key: Seq<char>| self@.contains_key(key) implies kept.contains(key) by {
                let k = choose|k: int|
                    0 <= k < self.entries@.len() && (#[trigger] self.entries@[k]).0@ == key;
                assert(kept.contains(self.entries@[k].0@));
            }
            assert(self@ =~= self@.restrict(kept));
        }
    }

    /// Forget a key.
    pub fn remove(&mut self, key: &String)
        requires
            old(self).wf(),
        ensures
            final(self).wf(),
            final(self)@ == old(self)@.remove(key@),
    {
        let ghost before = self.entries@;
        match self.find(key) {
            Some(at) => {
                let _ = self.entries.remove(at);
                proof {
                    lemma_entry_removed(before, at as int);
                }
            },
            None => {
                assert(self@ =~= old(self)@.remove(key@));
            },
        }
    }
}

proof fn lemma_entry_update<V>(entries: Seq<(String, V)>, at: int, entry: (String, V))
    requires
        one_entry_each(entries),
        0 <= at < entries.len(),
        entries[at].0@ == entry.0@,
    ensures
        one_entry_each(entries.update(at, entry)),
        entry_map(entries.update(at, entry)) == entry_map(entries).insert(entry.0@, entry.1),
{
    let after = entries.update(at, entry);
    assert forall|i: int, j: int| 0 <= i < j < after.len() implies (#[trigger] after[i]).0@ != (
    #[trigger] after[j]).0@ by {
        assert(entries[i].0@ != entries[j].0@);
    }
    lemma_entry_map(entries);
    lemma_entry_map(after);
    let a = entry_map(after);
    let b = entry_map(entries).insert(entry.0@, entry.1);
    assert forall|key: Seq<char>| a.contains_key(key) <==> b.contains_key(key) by {
        if a.contains_key(key) {
            let i = choose|i: int| 0 <= i < after.len() && (#[trigger] after[i]).0@ == key;
            assert(entry_map(entries).contains_key(entries[i].0@));
        }
        if b.contains_key(key) && key != entry.0@ {
            let i = choose|i: int| 0 <= i < entries.len() && (#[trigger] entries[i]).0@ == key;
            assert(a.contains_key(after[i].0@));
        }
        assert(a.contains_key(after[at].0@));
    }
    assert forall|key: Seq<char>| #[trigger] a.contains_key(key) implies a[key] == b[key] by {
        let i = choose|i: int| 0 <= i < after.len() && (#[trigger] after[i]).0@ == key;
        assert(a[after[i].0@] == after[i].1);
        if i != at {
            assert(entry_map(entries)[entries[i].0@] == entries[i].1);
            if i < at {
                assert(entries[i].0@ != entries[at].0@);
            } else {
                assert(entries[at].0@ != entries[i].0@);
            }
        }
    }
    assert(a =~= b);
}

proof fn lemma_entry_removed<V>(entries: Seq<(String, V)>, at: int)
    requires
        one_entry_each(entries),
        0 <= at < entries.len(),
    ensures
        one_entry_each(entries.remove(at)),
        entry_map(entries.remove(at)) == entry_map(entries).remove(entries[at].0@),
{
    let after = entries.remove(at);
    assert forall|i: int, j: int| 0 <= i < j < after.len() implies (#[trigger] after[i]).0@ != (
    #[trigger] after[j]).0@ by {
        let p: int = if i < at {
            i
        } else {
            i + 1
        };
        let q: int = if j < at {
            j
        } else {
            j + 1
        };
        assert(entries[p].0@ != entries[q].0@);
    }
    lemma_entry_map(entries);
    lemma_entry_map(after);
    let a = entry_map(after);
    let b = entry_map(entries).remove(entries[at].0@);
    assert forall|key: Seq<char>| a.contains_key(key) implies b.contains_key(key) && a[key]
        == b[key] by {
        let i = choose|i: int| 0 <= i < after.len() && (#[trigger] after[i]).0@ == key;
        let p: int = if i < at {
            i
        } else {
            i + 1
        };
        assert(after[i] == entries[p]);
        assert(a[after[i].0@] == after[i].1);
        assert(entry_map(entries)[entries[p].0@] == entries[p].1);
        if p < at {
            assert(entries[p].0@ != entries[at].0@);
        } else {
            assert(entries[at].0@ != entries[p].0@);
        }
    }
    assert forall|key: Seq<char>| b.contains_key(key) implies a.contains_key(key) by {
        let p = choose|p: int| 0 <= p < entries.len() && (#[trigger] entries[p]).0@ == key;
        let i: int = if p < at {
            p
        } else {
            p - 1
        };
        assert(after[i] == entries[p]);
        assert(a.contains_key(after[i].0@));
    }
    assert(a =~= b);
}

} // verus!
