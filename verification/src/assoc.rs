//! Small maps keyed by strings that remember the order in which keys were
//! first inserted.
use vstd::prelude::*;
use crate::text::str_eq;

verus! {

/// The map that a list of entries stands for: a later entry for a key
/// stands over an earlier one.
pub open spec fn assoc_map<V>(s: Seq<(String, V)>) -> Map<Seq<char>, V>
    decreases s.len(),
{
    if s.len() == 0 {
        Map::empty()
    } else {
        assoc_map(s.drop_last()).insert(s.last().0@, s.last().1)
    }
}

/// No two entries have the same key.
pub open spec fn distinct_keys<V>(s: Seq<(String, V)>) -> bool {
    forall|i: int, j: int| 0 <= i < j < s.len() ==> s[i].0@ != s[j].0@
}

/// The keys of the entries, in order.
pub open spec fn assoc_keys<V>(s: Seq<(String, V)>) -> Seq<Seq<char>> {
    s.map_values(|e: (String, V)| e.0@)
}

/// With distinct keys, every entry is in the map and every key of the map
/// has an entry.
pub proof fn lemma_assoc_map<V>(s: Seq<(String, V)>)
    requires
        distinct_keys(s),
    ensures
        forall|i: int|
            0 <= i < s.len() ==> #[trigger] assoc_map(s).contains_key(s[i].0@) && assoc_map(s)[s[i].0@]
                == s[i].1,
        forall|k: Seq<char>|
            assoc_map(s).contains_key(k) ==> exists|i: int| 0 <= i < s.len() && s[i].0@ == k,
    decreases s.len(),
{
    if s.len() > 0 {
        let p = s.drop_last();
        assert forall|i: int, j: int| 0 <= i < j < p.len() implies p[i].0@ != p[j].0@ by {
            assert(p[i] == s[i] && p[j] == s[j]);
        }
        lemma_assoc_map(p);
        assert forall|i: int| 0 <= i < s.len() implies #[trigger] assoc_map(s).contains_key(s[i].0@)
            && assoc_map(s)[s[i].0@] == s[i].1 by {
            if i < s.len() - 1 {
                assert(p[i] == s[i]);
                assert(assoc_map(p).contains_key(p[i].0@));
                assert(s[i].0@ != s[s.len() - 1].0@);
            }
        }
        assert forall|k: Seq<char>| assoc_map(s).contains_key(k) implies exists|i: int|
            0 <= i < s.len() && s[i].0@ == k by {
            if k != s.last().0@ {
                assert(assoc_map(p).contains_key(k));
                let i = choose|i: int| 0 <= i < p.len() && p[i].0@ == k;
                assert(p[i] == s[i]);
            } else {
                assert(s[s.len() - 1].0@ == k);
            }
        }
    }
}

proof fn lemma_assoc_update<V>(s: Seq<(String, V)>, i: int, k: String, v: V)
    requires
        distinct_keys(s),
        0 <= i < s.len(),
        k@ == s[i].0@,
    ensures
        distinct_keys(s.update(i, (k, v))),
        assoc_map(s.update(i, (k, v))) == assoc_map(s).insert(s[i].0@, v),
{
    let t = s.update(i, (k, v));
    lemma_assoc_map(s);
    assert(distinct_keys(t)) by {
        assert forall|a: int, b: int| 0 <= a < b < t.len() implies t[a].0@ != t[b].0@ by {
            assert(t[a].0@ == s[a].0@ && t[b].0@ == s[b].0@);
        }
    }
    lemma_assoc_map(t);
    let m = assoc_map(s).insert(s[i].0@, v);
    assert forall|k: Seq<char>| #[trigger] assoc_map(t).contains_key(k) == m.contains_key(k) by {
        if assoc_map(t).contains_key(k) {
            let j = choose|j: int| 0 <= j < t.len() && t[j].0@ == k;
            assert(s[j].0@ == k);
        }
        if assoc_map(s).contains_key(k) {
            let j = choose|j: int| 0 <= j < s.len() && s[j].0@ == k;
            assert(t[j].0@ == k);
        }
        if k == s[i].0@ {
            assert(t[i].0@ == k);
        }
    }
    assert forall|k: Seq<char>| #[trigger] assoc_map(t).contains_key(k) implies assoc_map(t)[k]
        == m[k] by {
        let j = choose|j: int| 0 <= j < t.len() && t[j].0@ == k;
        assert(s[j].0@ == k);
    }
    assert(assoc_map(t) =~= m);
}

proof fn lemma_assoc_push<V>(s: Seq<(String, V)>, k: String, v: V)
    requires
        distinct_keys(s),
        !assoc_map(s).contains_key(k@),
    ensures
        distinct_keys(s.push((k, v))),
        assoc_map(s.push((k, v))) == assoc_map(s).insert(k@, v),
{
    lemma_assoc_map(s);
    assert(s.push((k, v)).drop_last() =~= s);
    assert forall|i: int, j: int| 0 <= i < j < s.len() + 1 implies s.push((k, v))[i].0@ != s.push(
        (k, v),
    )[j].0@ by {
        if j == s.len() {
            assert(assoc_map(s).contains_key(s[i].0@));
        }
    }
}

proof fn lemma_assoc_remove<V>(s: Seq<(String, V)>, i: int)
    requires
        distinct_keys(s),
        0 <= i < s.len(),
    ensures
        distinct_keys(s.remove(i)),
        assoc_map(s.remove(i)) == assoc_map(s).remove(s[i].0@),
{
    let t = s.remove(i);
    lemma_assoc_map(s);
    assert(distinct_keys(t)) by {
        assert forall|a: int, b: int| 0 <= a < b < t.len() implies t[a].0@ != t[b].0@ by {
            let a2 = if a < i { a } else { a + 1 };
            let b2 = if b < i { b } else { b + 1 };
            assert(t[a] == s[a2] && t[b] == s[b2]);
        }
    }
    lemma_assoc_map(t);
    let m = assoc_map(s).remove(s[i].0@);
    assert forall|k: Seq<char>| #[trigger] assoc_map(t).contains_key(k) == m.contains_key(k) by {
        if assoc_map(t).contains_key(k) {
            let j = choose|j: int| 0 <= j < t.len() && t[j].0@ == k;
            let j2 = if j < i { j } else { j + 1 };
            assert(t[j] == s[j2]);
        }
        if m.contains_key(k) {
            let j = choose|j: int| 0 <= j < s.len() && s[j].0@ == k;
            assert(j != i);
            let j2 = if j < i { j } else { j - 1 };
            assert(t[j2] == s[j]);
        }
    }
    assert forall|k: Seq<char>| #[trigger] assoc_map(t).contains_key(k) implies assoc_map(t)[k] == m[k] by {
        let j = choose|j: int| 0 <= j < t.len() && t[j].0@ == k;
        let j2 = if j < i { j } else { j + 1 };
        assert(t[j] == s[j2]);
    }
    assert(assoc_map(t) =~= m);
}

/// A map from strings to values that keeps its keys in the order in which
/// they were first inserted.
#[derive(Debug)]
pub struct StrMap<V> {
    entries: Vec<(String, V)>,
}

impl<V> StrMap<V> {
    /// The entries are keyed by distinct strings.
    pub closed spec fn wf(&self) -> bool {
        distinct_keys(self.entries@)
    }

    /// The map as a mathematical map.
    pub closed spec fn map(&self) -> Map<Seq<char>, V> {
        assoc_map(self.entries@)
    }

    /// The keys in the order in which they were first inserted.
    pub closed spec fn keys(&self) -> Seq<Seq<char>> {
        assoc_keys(self.entries@)
    }

    /// The keys are distinct and are exactly the keys of the map.
    pub proof fn lemma_keys(&self)
        requires
            self.wf(),
        ensures
            self.keys().no_duplicates(),
            forall|k: Seq<char>| self.map().contains_key(k) <==> self.keys().contains(k),
            self.keys().len() == self.map().dom().len(),
    {
        lemma_assoc_map(self.entries@);
        let ks = self.keys();
        assert forall|k: Seq<char>| self.map().contains_key(k) <==> ks.contains(k) by {
            if self.map().contains_key(k) {
                let i = choose|i: int| 0 <= i < self.entries@.len() && self.entries@[i].0@ == k;
                assert(ks[i] == k);
            }
            if ks.contains(k) {
                let i = choose|i: int| 0 <= i < ks.len() && ks[i] == k;
                assert(self.entries@[i].0@ == k);
            }
        }
        assert(self.map().dom() =~= ks.to_set());
        ks.unique_seq_to_set();
    }

    /// The empty map.
    pub fn new() -> (m: Self)
        ensures
            m.wf(),
            m.map() == Map::<Seq<char>, V>::empty(),
            m.keys() == Seq::<Seq<char>>::empty(),
    {
        let m = StrMap { entries: Vec::new() };
        assert(m.keys() =~= Seq::<Seq<char>>::empty());
        m
    }

    fn find(&self, key: &str) -> (idx: Option<usize>)
        requires
            self.wf(),
        ensures
            match idx {
                Some(i) => i < self.entries@.len() && self.entries@[i as int].0@ == key@,
                None => !self.map().contains_key(key@),
            },
    {
        proof {
            lemma_assoc_map(self.entries@);
        }
        let mut i: usize = 0;
        while i < self.entries.len()
            invariant
                i <= self.entries@.len(),
                forall|j: int| 0 <= j < i ==> self.entries@[j].0@ != key@,
            decreases self.entries@.len() - i,
        {
            if str_eq(self.entries[i].0.as_str(), key) {
                return Some(i);
            }
            i = i + 1;
        }
        None
    }

    /// The value of `key`, if any.
    pub fn get(&self, key: &str) -> (v: Option<&V>)
        requires
            self.wf(),
        ensures
            v is Some <==> self.map().contains_key(key@),
            v matches Some(x) ==> *x == self.map()[key@],
    {
        proof {
            lemma_assoc_map(self.entries@);
        }
        match self.find(key) {
            Some(i) => {
                assert(assoc_map(self.entries@).contains_key(self.entries@[i as int].0@));
                Some(&self.entries[i].1)
            },
            None => None,
        }
    }

    /// Sets the value of `key`; gives back the value it had, if any. A new
    /// key comes after the others.
    pub fn insert(&mut self, key: String, value: V) -> (old_value: Option<V>)
        requires
            old(self).wf(),
        ensures
            final(self).wf(),
            final(self).map() == old(self).map().insert(key@, value),
            old_value is Some <==> old(self).map().contains_key(key@),
            old_value matches Some(x) ==> x == old(self).map()[key@],
            final(self).keys() == (if old(self).map().contains_key(key@) {
                old(self).keys()
            } else {
                old(self).keys().push(key@)
            }),
    {
        proof {
            lemma_assoc_map(self.entries@);
        }
        match self.find(key.as_str()) {
            Some(i) => {
                let ghost before = self.entries@;
                let ghost k = key;
                let mut entry = (key, value);
                std::mem::swap(&mut entry, &mut self.entries[i]);
                proof {
                    assert(before[i as int] == entry);
                    assert(self.entries@ == before.update(i as int, (k, value)));
                    lemma_assoc_update(before, i as int, k, value);
                    assert(assoc_map(before).contains_key(before[i as int].0@));
                    assert(assoc_keys(self.entries@) =~= assoc_keys(before));
                }
                Some(entry.1)
            },
            None => {
                let ghost before = self.entries@;
                self.entries.push((key, value));
                proof {
                    lemma_assoc_push(before, key, value);
                    assert(assoc_keys(self.entries@) =~= assoc_keys(before).push(key@));
                }
                None
            },
        }
    }

    /// The value of `key`, to be changed in place; a new key is inserted
    /// with the value `default` and comes after the others.
    pub fn value_mut(&mut self, key: String, default: V) -> (v: &mut V)
        requires
            old(self).wf(),
        ensures
            final(self).wf(),
            *v == (if old(self).map().contains_key(key@) {
                old(self).map()[key@]
            } else {
                default
            }),
            final(self).map() == old(self).map().insert(key@, *final(v)),
            final(self).keys() == (if old(self).map().contains_key(key@) {
                old(self).keys()
            } else {
                old(self).keys().push(key@)
            }),
    {
        proof {
            lemma_assoc_map(self.entries@);
        }
        let ghost k0 = self.keys();
        let i = match self.find(key.as_str()) {
            Some(i) => i,
            None => {
                let ghost before = self.entries@;
                self.entries.push((key, default));
                proof {
                    lemma_assoc_push(before, key, default);
                    assert(assoc_keys(self.entries@) =~= assoc_keys(before).push(key@));
                }
                self.entries.len() - 1
            },
        };
        proof {
            lemma_assoc_map(self.entries@);
            assert(assoc_map(self.entries@).contains_key(self.entries@[i as int].0@));
        }
        let ghost before = self.entries@;
        let entry = &mut self.entries[i];
        let v = &mut entry.1;
        proof {
            lemma_assoc_update(before, i as int, before[i as int].0, *final(v));
            assert(assoc_keys(before.update(i as int, (before[i as int].0, *final(v)))) =~= assoc_keys(before));
        }
        v
    }

    /// Takes `key` and its value out of the map, if it is there.
    pub fn remove(&mut self, key: &str) -> (v: Option<V>)
        requires
            old(self).wf(),
        ensures
            final(self).wf(),
            final(self).map() == old(self).map().remove(key@),
            v is Some <==> old(self).map().contains_key(key@),
            v matches Some(x) ==> x == old(self).map()[key@],
    {
        proof {
            lemma_assoc_map(self.entries@);
        }
        match self.find(key) {
            Some(i) => {
                let ghost before = self.entries@;
                let (_, v) = self.entries.remove(i);
                proof {
                    lemma_assoc_remove(before, i as int);
                    assert(assoc_map(before).contains_key(before[i as int].0@));
                }
                Some(v)
            },
            None => {
                assert(self.map().remove(key@) =~= self.map());
                None
            },
        }
    }

    /// Number of keys.
    pub fn len(&self) -> (n: usize)
        requires
            self.wf(),
        ensures
            n == self.keys().len(),
    {
        self.entries.len()
    }

    /// The `i`th key, in insertion order, with its value.
    pub fn entry(&self, i: usize) -> (e: (&String, &V))
        requires
            self.wf(),
            i < self.keys().len(),
        ensures
            e.0@ == self.keys()[i as int],
            self.map().contains_key(e.0@),
            *e.1 == self.map()[e.0@],
    {
        proof {
            lemma_assoc_map(self.entries@);
            assert(self.entries@[i as int].0@ == self.keys()[i as int]);
            assert(assoc_map(self.entries@).contains_key(self.entries@[i as int].0@));
        }
        let e = &self.entries[i];
        (&e.0, &e.1)
    }
}

} // verus!
