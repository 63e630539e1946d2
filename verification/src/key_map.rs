//! A map from names to values that keeps the order in which the names were
//! first inserted.

use vstd::prelude::*;

verus! {

/// The index of the first entry of `entries` under `key`, or the length of
/// `entries` where there is none.
pub open spec fn position<V>(entries: Seq<(Seq<char>, V)>, key: Seq<char>) -> int
    decreases entries.len(),
{
    if entries.len() == 0 {
        0
    } else {
        let before = position(entries.drop_last(), key);
        if before < entries.len() - 1 {
            before
        } else if entries.last().0 == key {
            entries.len() - 1
        } else {
            entries.len() as int
        }
    }
}

/// No two entries have the same key.
pub open spec fn distinct_keys<V>(entries: Seq<(Seq<char>, V)>) -> bool {
    forall|i: int, j: int|
        0 <= i < j < entries.len() ==> (#[trigger] entries[i]).0 != (#[trigger] entries[j]).0
}

/// `entries` after `value` was stored under `key`: in the place of the entry
/// that had this key, or behind all the others where none had it.
pub open spec fn with_entry<V>(entries: Seq<(Seq<char>, V)>, key: Seq<char>, value: V) -> Seq<
    (Seq<char>, V),
> {
    let at = position(entries, key);
    if at < entries.len() {
        entries.update(at, (key, value))
    } else {
        entries.push((key, value))
    }
}

/// `entries` with `f` applied to each value; the keys and the order stay.
pub open spec fn map_entries<V, W>(entries: Seq<(Seq<char>, V)>, f: spec_fn(V) -> W) -> Seq<
    (Seq<char>, W),
> {
    entries.map_values(|e: (Seq<char>, V)| (e.0, f(e.1)))
}

/// `position` finds the first entry with the key and nothing before it.
pub proof fn lemma_position<V>(entries: Seq<(Seq<char>, V)>, key: Seq<char>)
    ensures
        0 <= position(entries, key) <= entries.len(),
        position(entries, key) < entries.len() ==> entries[position(entries, key)].0 == key,
        forall|j: int| 0 <= j < position(entries, key) ==> (#[trigger] entries[j]).0 != key,
    decreases entries.len(),
{
    if entries.len() > 0 {
        let front = entries.drop_last();
        lemma_position(front, key);
        assert forall|j: int| 0 <= j < position(entries, key) implies (#[trigger] entries[j]).0
            != key by {
            if j < front.len() {
                assert(front[j] == entries[j]);
            }
        }
    }
}

/// An index whose entry has the key, with no such entry before it, is the
/// position of the key.
pub proof fn lemma_position_is<V>(entries: Seq<(Seq<char>, V)>, key: Seq<char>, at: int)
    requires
        0 <= at <= entries.len(),
        at < entries.len() ==> entries[at].0 == key,
        forall|j: int| 0 <= j < at ==> (#[trigger] entries[j]).0 != key,
    ensures
        position(entries, key) == at,
{
    lemma_position(entries, key);
    let p = position(entries, key);
    if p < at {
        assert(entries[p].0 != key);
    }
}

/// Storing a value keeps the keys distinct.
pub proof fn lemma_with_entry_distinct<V>(entries: Seq<(Seq<char>, V)>, key: Seq<char>, value: V)
    requires
        distinct_keys(entries),
    ensures
        distinct_keys(with_entry(entries, key, value)),
{
    lemma_position(entries, key);
    let at = position(entries, key);
    let after = with_entry(entries, key, value);
    assert forall|i: int, j: int| 0 <= i < j < after.len() implies (#[trigger] after[i]).0 != (
    #[trigger] after[j]).0 by {
        if at < entries.len() {
            assert(after[i].0 == entries[i].0);
            assert(after[j].0 == entries[j].0);
        } else {
            if j < entries.len() {
                assert(after[i] == entries[i]);
                assert(after[j] == entries[j]);
            } else {
                assert(after[i] == entries[i]);
            }
        }
    }
}

/// Applying a function to the values moves no key.
pub proof fn lemma_position_map_entries<V, W>(
    entries: Seq<(Seq<char>, V)>,
    f: spec_fn(V) -> W,
    key: Seq<char>,
)
    ensures
        position(map_entries(entries, f), key) == position(entries, key),
{
    lemma_position(entries, key);
    let mapped = map_entries(entries, f);
    let at = position(entries, key);
    assert forall|j: int| 0 <= j < at implies (#[trigger] mapped[j]).0 != key by {
        assert(entries[j].0 != key);
    }
    lemma_position_is(mapped, key, at);
}

/// Storing a value and then applying a function to the values gives what
/// storing the function's value after applying it gives.
pub proof fn lemma_with_entry_map_entries<V, W>(
    entries: Seq<(Seq<char>, V)>,
    f: spec_fn(V) -> W,
    key: Seq<char>,
    value: V,
)
    ensures
        map_entries(with_entry(entries, key, value), f) == with_entry(
            map_entries(entries, f),
            key,
            f(value),
        ),
{
    lemma_position(entries, key);
    lemma_position_map_entries(entries, f, key);
    assert(map_entries(with_entry(entries, key, value), f) =~= with_entry(
        map_entries(entries, f),
        key,
        f(value),
    ));
}

/// An insertion-ordered map from names to values. A name occurs at most once.
#[derive(Debug, Clone, PartialEq, Eq)]
pub struct KeyMap<V> {
    entries: Vec<(String, V)>,
}

impl<V> View for KeyMap<V> {
    type V = Seq<(Seq<char>, V)>;

    /// The entries in insertion order, each key as its text.
    closed spec fn view(&self) -> Seq<(Seq<char>, V)> {
        self.entries@.map_values(|e: (String, V)| (e.0@, e.1))
    }
}

impl<V> KeyMap<V> {
    /// Every value of this type that the library hands out has distinct keys.
    pub open spec fn wf(&self) -> bool {
        distinct_keys(self@)
    }

    /// A map without entries.
    pub fn new() -> (r: Self)
        ensures
            r@ == Seq::<(Seq<char>, V)>::empty(),
            r.wf(),
    {
        let r = KeyMap { entries: Vec::new() };
        assert(r@ =~= Seq::<(Seq<char>, V)>::empty());
        r
    }

    /// The number of entries.
    pub fn len(&self) -> (n: usize)
        ensures
            n == self@.len(),
    {
        self.entries.len()
    }

    /// Whether there is no entry.
    pub fn is_empty(&self) -> (b: bool)
        ensures
            b == (self@.len() == 0),
    {
        self.entries.len() == 0
    }

    /// The key of the entry at `index`, counted in insertion order.
    pub fn key_at(&self, index: usize) -> (k: &String)
        requires
            index < self@.len(),
        ensures
            k@ == self@[index as int].0,
    {
        &self.entries[index].0
    }

    /// The value of the entry at `index`, counted in insertion order.
    pub fn value_at(&self, index: usize) -> (v: &V)
        requires
            index < self@.len(),
        ensures
            *v == self@[index as int].1,
    {
        &self.entries[index].1
    }

    /// The index of the entry under `key`, if there is one.
    pub fn find(&self, key: &str) -> (r: Option<usize>)
        ensures
            match r {
                Some(i) => i == position(self@, key@) && i < self@.len(),
                None => position(self@, key@) == self@.len(),
            },
    {
        let wanted = key.to_owned();
        let mut i: usize = 0;
        while i < self.entries.len()
            invariant
                i <= self.entries.len(),
                wanted@ == key@,
                forall|j: int| 0 <= j < i ==> (#[trigger] self@[j]).0 != key@,
            decreases self.entries.len() - i,
        {
            if self.entries[i].0 == wanted {
                proof {
                    lemma_position_is(self@, key@, i as int);
                }
                return Some(i);
            }
            i = i + 1;
        }
        proof {
            lemma_position_is(self@, key@, i as int);
        }
        None
    }

    /// Whether there is an entry under `key`.
    pub fn contains_key(&self, key: &str) -> (b: bool)
        ensures
            b == (position(self@, key@) < self@.len()),
    {
        self.find(key).is_some()
    }

    /// The value stored under `key`, if there is one.
    pub fn get(&self, key: &str) -> (r: Option<&V>)
        ensures
            match r {
                Some(v) => position(self@, key@) < self@.len() && *v == self@[position(
                    self@,
                    key@,
                )].1,
                None => position(self@, key@) == self@.len(),
            },
    {
        match self.find(key) {
            Some(i) => Some(&self.entries[i].1),
            None => None,
        }
    }

    /// Stores `value` under `key` and returns the value that was there before.
    /// A key that is already present keeps its place in the order; a new key
    /// goes to the end.
    pub fn insert(&mut self, key: String, value: V) -> (r: Option<V>)
        ensures
            final(self)@ == with_entry(old(self)@, key@, value),
            match r {
                Some(v) => position(old(self)@, key@) < old(self)@.len() && v == old(self)@[position(
                    old(self)@,
                    key@,
                )].1,
                None => position(old(self)@, key@) == old(self)@.len(),
            },
            old(self).wf() ==> final(self).wf(),
    {
        proof {
            if self.wf() {
                lemma_with_entry_distinct(self@, key@, value);
            }
        }
        match self.find(key.as_str()) {
            Some(i) => {
                let previous = self.entries.remove(i);
                self.entries.insert(i, (key, value));
                assert(self@ =~= with_entry(old(self)@, key@, value));
                Some(previous.1)
            },
            None => {
                self.entries.push((key, value));
                assert(self@ =~= with_entry(old(self)@, key@, value));
                None
            },
        }
    }

    /// Takes the entry that was inserted last out of the map.
    pub fn pop_back(&mut self) -> (r: Option<(String, V)>)
        ensures
            match r {
                Some(e) => old(self)@.len() > 0 && final(self)@ == old(self)@.drop_last() && (
                e.0@, e.1) == old(self)@.last(),
                None => old(self)@.len() == 0 && final(self)@ == old(self)@,
            },
            old(self).wf() ==> final(self).wf(),
    {
        let r = self.entries.pop();
        assert(self@ =~= if old(self)@.len() > 0 {
            old(self)@.drop_last()
        } else {
            old(self)@
        });
        r
    }
}

} // verus!
