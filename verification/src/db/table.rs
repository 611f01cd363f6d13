//! A map from keys to values, held as a vector of entries with distinct keys.
use vstd::prelude::*;

verus! {

/// A type whose values can be told apart by their views.
pub trait TableKey: View + Sized {
    fn same_key(&self, other: &Self) -> (r: bool)
        ensures
            r == (self@ == other@),
    ;
}

/// Entries in the order in which their keys were first inserted.
pub struct Table<K, V> {
    entries: Vec<(K, V)>,
}

/// Where the entry of key `k` stands.
pub open spec fn position<K: View, V>(entries: Seq<(K, V)>, k: K::V) -> int {
    choose|i: int| 0 <= i < entries.len() && (#[trigger] entries[i]).0@ == k
}

pub open spec fn has_key<K: View, V>(entries: Seq<(K, V)>, k: K::V) -> bool {
    exists|i: int| 0 <= i < entries.len() && (#[trigger] entries[i]).0@ == k
}

pub open spec fn distinct<K: View, V>(entries: Seq<(K, V)>) -> bool {
    forall|i: int, j: int|
        0 <= i < j < entries.len() ==> (#[trigger] entries[i]).0@ != (#[trigger] entries[j]).0@
}

/// The map that the entries make up.
pub open spec fn as_map<K: View, V>(entries: Seq<(K, V)>) -> Map<K::V, V> {
    Map::new(|k: K::V| has_key(entries, k), |k: K::V| entries[position(entries, k)].1)
}

impl<K: TableKey, V> View for Table<K, V> {
    type V = Map<K::V, V>;

    open spec fn view(&self) -> Map<K::V, V> {
        as_map(self.entries())
    }
}

pub proof fn lemma_entry<K: View, V>(entries: Seq<(K, V)>, i: int)
    requires
        distinct(entries),
        0 <= i < entries.len(),
    ensures
        as_map(entries).contains_key(entries[i].0@),
        as_map(entries)[entries[i].0@] == entries[i].1,
        position(entries, entries[i].0@) == i,
{
    let k = entries[i].0@;
    assert(has_key(entries, k));
    let p = position(entries, k);
    assert(entries[p].0@ == k);
    if p != i {
        if p < i {
            assert(entries[p].0@ != entries[i].0@);
        } else {
            assert(entries[i].0@ != entries[p].0@);
        }
    }
}

pub proof fn lemma_entry_of<K: View, V>(entries: Seq<(K, V)>, k: K::V)
    requires
        as_map(entries).contains_key(k),
    ensures
        0 <= position(entries, k) < entries.len(),
        entries[position(entries, k)].0@ == k,
        as_map(entries)[k] == entries[position(entries, k)].1,
{
    assert(has_key(entries, k));
}

proof fn lemma_update<K: View, V>(entries: Seq<(K, V)>, i: int, key: K, value: V)
    requires
        distinct(entries),
        0 <= i < entries.len(),
        key@ == entries[i].0@,
    ensures
        distinct(entries.update(i, (key, value))),
        as_map(entries.update(i, (key, value))) == as_map(entries).insert(
            entries[i].0@,
            value,
        ),
{
    let after = entries.update(i, (key, value));
    assert(distinct(after)) by {
        assert forall|a: int, b: int| 0 <= a < b < after.len() implies (#[trigger] after[a]).0@
            != (#[trigger] after[b]).0@ by {
            assert(after[a].0@ == entries[a].0@);
            assert(after[b].0@ == entries[b].0@);
        }
    }
    let k = entries[i].0@;
    assert forall|q: K::V| #[trigger] as_map(after).contains_key(q) == as_map(entries).insert(
        k,
        value,
    ).contains_key(q) by {
        if has_key(after, q) {
            let p = position(after, q);
            assert(entries[p].0@ == q);
        }
        if has_key(entries, q) {
            let p = position(entries, q);
            assert(after[p].0@ == q);
        }
        assert(after[i].0@ == k);
    }
    assert forall|q: K::V| as_map(after).contains_key(q) implies #[trigger] as_map(after)[q]
        == as_map(entries).insert(k, value)[q] by {
        lemma_entry_of(after, q);
        let p = position(after, q);
        if p == i {
            assert(q == k);
        } else {
            assert(after[p] == entries[p]);
            lemma_entry(entries, p);
            lemma_entry(entries, i);
        }
    }
    assert(as_map(after) =~= as_map(entries).insert(k, value));
}

proof fn lemma_push<K: View, V>(entries: Seq<(K, V)>, key: K, value: V)
    requires
        distinct(entries),
        !has_key(entries, key@),
    ensures
        distinct(entries.push((key, value))),
        as_map(entries.push((key, value))) == as_map(entries).insert(key@, value),
{
    let after = entries.push((key, value));
    let n = entries.len() as int;
    assert(distinct(after)) by {
        assert forall|a: int, b: int| 0 <= a < b < after.len() implies (#[trigger] after[a]).0@
            != (#[trigger] after[b]).0@ by {
            assert(after[a] == entries[a]);
            if b < n {
                assert(after[b] == entries[b]);
            }
        }
    }
    assert forall|q: K::V| #[trigger] as_map(after).contains_key(q) == as_map(entries).insert(
        key@,
        value,
    ).contains_key(q) by {
        if has_key(after, q) {
            let p = position(after, q);
            if p < n {
                assert(entries[p].0@ == q);
            }
        }
        if has_key(entries, q) {
            let p = position(entries, q);
            assert(after[p].0@ == q);
        }
        assert(after[n].0@ == key@);
    }
    assert forall|q: K::V| as_map(after).contains_key(q) implies #[trigger] as_map(after)[q]
        == as_map(entries).insert(key@, value)[q] by {
        lemma_entry_of(after, q);
        let p = position(after, q);
        if p < n {
            assert(after[p] == entries[p]);
            lemma_entry(entries, p);
        }
    }
    assert(as_map(after) =~= as_map(entries).insert(key@, value));
}

proof fn lemma_remove<K: View, V>(entries: Seq<(K, V)>, i: int)
    requires
        distinct(entries),
        0 <= i < entries.len(),
    ensures
        distinct(entries.remove(i)),
        as_map(entries.remove(i)) == as_map(entries).remove(entries[i].0@),
{
    let after = entries.remove(i);
    let k = entries[i].0@;
    assert forall|a: int| 0 <= a < after.len() implies #[trigger] after[a] == entries[if a < i {
        a
    } else {
        a + 1
    }] by {}
    assert(distinct(after)) by {
        assert forall|a: int, b: int| 0 <= a < b < after.len() implies (#[trigger] after[a]).0@
            != (#[trigger] after[b]).0@ by {
            let a0 = if a < i { a } else { a + 1 };
            let b0 = if b < i { b } else { b + 1 };
            assert(entries[a0].0@ != entries[b0].0@);
        }
    }
    assert forall|q: K::V| #[trigger] as_map(after).contains_key(q) == as_map(entries).remove(
        k,
    ).contains_key(q) by {
        if has_key(after, q) {
            let p = position(after, q);
            let p0 = if p < i { p } else { p + 1 };
            assert(entries[p0].0@ == q);
            lemma_entry(entries, p0);
            lemma_entry(entries, i);
        }
        if has_key(entries, q) && q != k {
            let p = position(entries, q);
            let p1 = if p < i { p } else { p - 1 };
            assert(after[p1] == entries[p]);
        }
    }
    assert forall|q: K::V| as_map(after).contains_key(q) implies #[trigger] as_map(after)[q]
        == as_map(entries).remove(k)[q] by {
        lemma_entry_of(after, q);
        let p = position(after, q);
        let p0 = if p < i { p } else { p + 1 };
        assert(after[p] == entries[p0]);
        lemma_entry(entries, p0);
        lemma_entry(entries, i);
    }
    assert(as_map(after) =~= as_map(entries).remove(k));
}

impl<K: TableKey, V> Table<K, V> {
    pub closed spec fn entries(self) -> Seq<(K, V)> {
        self.entries@
    }

    /// No key stands in two entries.
    pub open spec fn wf(self) -> bool {
        distinct(self.entries())
    }

    pub fn new() -> (r: Self)
        ensures
            r.wf(),
            r.entries() == Seq::<(K, V)>::empty(),
            r@ == Map::<K::V, V>::empty(),
    {
        let r = Self { entries: Vec::new() };
        assert(r@ =~= Map::<K::V, V>::empty());
        r
    }

    pub fn len(&self) -> (r: usize)
        ensures
            r == self.entries().len(),
    {
        self.entries.len()
    }

    /// The index of the entry of `key`.
    pub fn find(&self, key: &K) -> (r: Option<usize>)
        requires
            self.wf(),
        ensures
            match r {
                Some(i) => {
                    &&& i < self.entries().len()
                    &&& self.entries()[i as int].0@ == key@
                    &&& self@.contains_key(key@)
                    &&& self@[key@] == self.entries()[i as int].1
                },
                None => !self@.contains_key(key@),
            },
    {
        let mut i: usize = 0;
        while i < self.entries.len()
            invariant
                self.wf(),
                i <= self.entries@.len(),
                forall|j: int| 0 <= j < i ==> (#[trigger] self.entries@[j]).0@ != key@,
            decreases self.entries@.len() - i,
        {
            if self.entries[i].0.same_key(key) {
                proof {
                    lemma_entry(self.entries@, i as int);
                }
                return Some(i);
            }
            i += 1;
        }
        None
    }

    pub fn contains_key(&self, key: &K) -> (r: bool)
        requires
            self.wf(),
        ensures
            r == self@.contains_key(key@),
    {
        self.find(key).is_some()
    }

    pub fn get(&self, key: &K) -> (r: Option<&V>)
        requires
            self.wf(),
        ensures
            match r {
                Some(v) => self@.contains_key(key@) && *v == self@[key@],
                None => !self@.contains_key(key@),
            },
    {
        match self.find(key) {
            Some(i) => Some(&self.entries[i].1),
            None => None,
        }
    }

    pub fn get_mut(&mut self, key: &K) -> (r: Option<&mut V>)
        requires
            old(self).wf(),
        ensures
            final(self).wf(),
            match r {
                Some(v) => {
                    &&& old(self)@.contains_key(key@)
                    &&& *v == old(self)@[key@]
                    &&& final(self)@ == old(self)@.insert(key@, *final(v))
                },
                None => !old(self)@.contains_key(key@) && final(self)@ == old(self)@,
            },
    {
        match self.find(key) {
            Some(i) => {
                let ghost before = self.entries@;
                proof {
                    assert forall|v: V|
                        #![trigger before.update(i as int, (before[i as int].0, v))]
                        distinct(before.update(i as int, (before[i as int].0, v))) && as_map(
                            before.update(i as int, (before[i as int].0, v)),
                        ) == as_map(before).insert(key@, v) by {
                        lemma_update(before, i as int, before[i as int].0, v);
                    }
                }
                Some(&mut self.entries[i].1)
            },
            None => None,
        }
    }

    /// Sets the value of `key`, which keeps its place where it has one.
    pub fn insert(&mut self, key: K, value: V)
        requires
            old(self).wf(),
        ensures
            final(self).wf(),
            final(self)@ == old(self)@.insert(key@, value),
    {
        match self.find(&key) {
            Some(i) => {
                proof {
                    lemma_update(self.entries@, i as int, key, value);
                }
                self.entries.set(i, (key, value));
            },
            None => {
                proof {
                    lemma_push(self.entries@, key, value);
                }
                self.entries.push((key, value));
            },
        }
    }

    pub fn remove(&mut self, key: &K) -> (r: Option<V>)
        requires
            old(self).wf(),
        ensures
            final(self).wf(),
            final(self)@ == old(self)@.remove(key@),
            match r {
                Some(v) => old(self)@.contains_key(key@) && v == old(self)@[key@],
                None => !old(self)@.contains_key(key@),
            },
    {
        match self.find(key) {
            Some(i) => {
                proof {
                    lemma_remove(self.entries@, i as int);
                }
                let (_, value) = self.entries.remove(i);
                Some(value)
            },
            None => {
                assert(self@.remove(key@) =~= self@);
                None
            },
        }
    }

    /// Takes out some entry.
    pub fn pop(&mut self) -> (r: Option<(K, V)>)
        requires
            old(self).wf(),
        ensures
            final(self).wf(),
            match r {
                Some((key, value)) => {
                    &&& old(self)@.contains_key(key@)
                    &&& old(self)@[key@] == value
                    &&& final(self)@ == old(self)@.remove(key@)
                    &&& final(self).entries().len() == old(self).entries().len() - 1
                },
                None => old(self)@ == Map::<K::V, V>::empty() && final(self)@ == old(self)@,
            },
    {
        let ghost before = self.entries@;
        let r = self.entries.pop();
        proof {
            if r is Some {
                let i = before.len() - 1;
                lemma_entry(before, i);
                lemma_remove(before, i);
                assert(before.remove(i) =~= self.entries@);
            } else {
                assert(old(self)@ =~= Map::<K::V, V>::empty());
            }
        }
        r
    }

    pub fn key_at(&self, i: usize) -> (r: &K)
        requires
            i < self.entries().len(),
        ensures
            *r == self.entries()[i as int].0,
    {
        &self.entries[i].0
    }

    pub fn value_at(&self, i: usize) -> (r: &V)
        requires
            i < self.entries().len(),
        ensures
            *r == self.entries()[i as int].1,
    {
        &self.entries[i].1
    }
}

} // verus!
