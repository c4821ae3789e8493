//! The value store: a mapping from identifiers to stored data, with
//! unique keys.

use vstd::prelude::*;

use crate::base::GenericId;

verus! {

/// The mathematical map denoted by a sequence of key/value entries,
/// later entries taking precedence.
pub open spec fn map_of<K, V2>(s: Seq<(K, V2)>) -> Map<K, V2>
    decreases s.len(),
{
    if s.len() == 0 {
        Map::empty()
    } else {
        map_of(s.drop_last()).insert(s.last().0, s.last().1)
    }
}

/// A key is in the map exactly when some entry carries it.
proof fn lemma_map_of_contains<K, V2>(s: Seq<(K, V2)>, k: K)
    ensures
        map_of(s).contains_key(k) <==> exists|i: int| 0 <= i < s.len() && (#[trigger] s[i]).0 == k,
    decreases s.len(),
{
    if s.len() > 0 {
        lemma_map_of_contains(s.drop_last(), k);
        if map_of(s).contains_key(k) && s.last().0 != k {
            let i = choose|i: int| 0 <= i < s.drop_last().len() && (#[trigger] s.drop_last()[i]).0
                == k;
            assert(s[i].0 == k);
        }
        if exists|i: int| 0 <= i < s.len() && (#[trigger] s[i]).0 == k {
            let i = choose|i: int| 0 <= i < s.len() && (#[trigger] s[i]).0 == k;
            if i < s.len() - 1 {
                assert(s.drop_last()[i].0 == k);
            }
        }
    }
}

/// With pairwise distinct keys, each entry is the map's value at its key.
proof fn lemma_map_of_get<K, V2>(s: Seq<(K, V2)>, j: int)
    requires
        0 <= j < s.len(),
        forall|a: int, b: int| 0 <= a < b < s.len() ==> (#[trigger] s[a]).0 != (#[trigger] s[b]).0,
    ensures
        map_of(s).contains_key(s[j].0),
        map_of(s)[s[j].0] == s[j].1,
    decreases s.len(),
{
    if j < s.len() - 1 {
        assert(s.drop_last()[j] == s[j]);
        lemma_map_of_get(s.drop_last(), j);
        assert(s[s.len() - 1].0 != s[j].0);
    }
}

/// Replacing the value at one entry updates the map at that key alone.
proof fn lemma_map_of_update<K, V2>(s: Seq<(K, V2)>, j: int, v: V2)
    requires
        0 <= j < s.len(),
        forall|a: int, b: int| 0 <= a < b < s.len() ==> (#[trigger] s[a]).0 != (#[trigger] s[b]).0,
    ensures
        map_of(s.update(j, (s[j].0, v))) == map_of(s).insert(s[j].0, v),
    decreases s.len(),
{
    let s2 = s.update(j, (s[j].0, v));
    if j == s.len() - 1 {
        assert(s2.drop_last() =~= s.drop_last());
        assert(map_of(s2) =~= map_of(s).insert(s[j].0, v));
    } else {
        assert(s2.drop_last() =~= s.drop_last().update(j, (s[j].0, v)));
        assert(s.drop_last()[j] == s[j]);
        lemma_map_of_update(s.drop_last(), j, v);
        assert(s.last().0 != s[j].0);
        assert(s2.last() == s.last());
        assert(map_of(s2) =~= map_of(s).insert(s[j].0, v));
    }
}

/// Protocol-agnostic value store: key/value pairs with unique keys.
pub struct KeyValueStore<TId, TData> {
    entries: Vec<(TId, TData)>,
}

impl<TId: GenericId, TData> KeyValueStore<TId, TData> {
    /// Abstract values of the entries, in insertion order.
    pub closed spec fn entries_v(&self) -> Seq<(<TId as DeepView>::V, TData)> {
        self.entries@.map_values(|e: (TId, TData)| (e.0.deep_view(), e.1))
    }

    /// The mapping this store denotes.
    pub open spec fn map_v(&self) -> Map<<TId as DeepView>::V, TData> {
        map_of(self.entries_v())
    }

    /// Structural invariant: keys are pairwise distinct.
    pub closed spec fn wf(&self) -> bool {
        forall|a: int, b: int|
            0 <= a < b < self.entries_v().len() ==> (#[trigger] self.entries_v()[a]).0
                != (#[trigger] self.entries_v()[b]).0
    }

    /// Create an empty store.
    pub fn new() -> (r: KeyValueStore<TId, TData>)
        ensures
            r.wf(),
            r.map_v() == Map::<<TId as DeepView>::V, TData>::empty(),
    {
        let r = KeyValueStore { entries: Vec::new() };
        proof {
            assert(r.entries_v() =~= Seq::empty());
        }
        r
    }

    /// Index of the entry with the given key, if any.
    fn position_of(&self, key: &TId) -> (r: Option<usize>)
        ensures
            match r {
                Some(j) => 0 <= j < self.entries_v().len() && self.entries_v()[j as int].0
                    == key.deep_view(),
                None => forall|i: int|
                    0 <= i < self.entries_v().len() ==> (#[trigger] self.entries_v()[i]).0
                        != key.deep_view(),
            },
    {
        let mut j: usize = 0;
        while j < self.entries.len()
            invariant
                j <= self.entries@.len(),
                forall|i: int|
                    0 <= i < j ==> (#[trigger] self.entries_v()[i]).0 != key.deep_view(),
            decreases self.entries@.len() - j,
        {
            let e = &self.entries[j];
            if e.0.eq_id(key) {
                return Some(j);
            }
            j = j + 1;
        }
        None
    }

    /// Store a value under a key, replacing and returning any previous
    /// value stored there.
    pub fn insert(&mut self, key: TId, value: TData) -> (r: Option<TData>)
        requires
            old(self).wf(),
        ensures
            final(self).wf(),
            final(self).map_v() == old(self).map_v().insert(key.deep_view(), value),
            match r {
                Some(v) => old(self).map_v().contains_key(key.deep_view()) && v == old(
                    self,
                ).map_v()[key.deep_view()],
                None => !old(self).map_v().contains_key(key.deep_view()),
            },
    {
        let ghost pre = self.entries_v();
        let ghost kv = key.deep_view();
        match self.position_of(&key) {
            Some(j) => {
                let previous = self.entries.remove(j);
                self.entries.insert(j, (key, value));
                proof {
                    assert(self.entries@ =~= old(self).entries@.update(
                        j as int,
                        self.entries@[j as int],
                    ));
                    assert(self.entries_v() =~= pre.update(j as int, (kv, value)));
                    lemma_map_of_get(pre, j as int);
                    lemma_map_of_update(pre, j as int, value);
                    lemma_map_of_contains(pre, kv);
                }
                Some(previous.1)
            },
            None => {
                self.entries.push((key, value));
                proof {
                    assert(self.entries_v() =~= pre.push((kv, value)));
                    assert(self.entries_v().drop_last() =~= pre);
                    lemma_map_of_contains(pre, kv);
                }
                None
            },
        }
    }

    /// The value stored under a key, if any.
    pub fn get(&self, key: &TId) -> (r: Option<&TData>)
        requires
            self.wf(),
        ensures
            match r {
                Some(v) => self.map_v().contains_key(key.deep_view()) && *v
                    == self.map_v()[key.deep_view()],
                None => !self.map_v().contains_key(key.deep_view()),
            },
    {
        match self.position_of(key) {
            Some(j) => {
                proof {
                    lemma_map_of_get(self.entries_v(), j as int);
                }
                Some(&self.entries[j].1)
            },
            None => {
                proof {
                    lemma_map_of_contains(self.entries_v(), key.deep_view());
                }
                None
            },
        }
    }

    /// Remove the value stored under a key, returning it if present.
    pub fn remove(&mut self, key: &TId) -> (r: Option<TData>)
        requires
            old(self).wf(),
        ensures
            final(self).wf(),
            final(self).map_v() == old(self).map_v().remove(key.deep_view()),
            match r {
                Some(v) => old(self).map_v().contains_key(key.deep_view()) && v == old(
                    self,
                ).map_v()[key.deep_view()],
                None => !old(self).map_v().contains_key(key.deep_view()),
            },
    {
        let ghost pre = self.entries_v();
        match self.position_of(key) {
            Some(j) => {
                let previous = self.entries.remove(j);
                proof {
                    assert(self.entries_v() =~= pre.remove(j as int));
                    pre.remove_ensures(j as int);
                    lemma_map_of_get(pre, j as int);
                    lemma_map_of_remove(pre, j as int);
                }
                Some(previous.1)
            },
            None => {
                proof {
                    lemma_map_of_contains(pre, key.deep_view());
                    assert(self.entries_v() == pre);
                }
                None
            },
        }
    }
}

/// Removing an entry removes exactly its key from the map.
proof fn lemma_map_of_remove<K, V2>(s: Seq<(K, V2)>, j: int)
    requires
        0 <= j < s.len(),
        forall|a: int, b: int| 0 <= a < b < s.len() ==> (#[trigger] s[a]).0 != (#[trigger] s[b]).0,
    ensures
        map_of(s.remove(j)) == map_of(s).remove(s[j].0),
    decreases s.len(),
{
    let s2 = s.remove(j);
    s.remove_ensures(j);
    if j == s.len() - 1 {
        assert(s2 =~= s.drop_last());
        lemma_map_of_contains(s.drop_last(), s[j].0);
        assert(!map_of(s.drop_last()).contains_key(s[j].0)) by {
            if map_of(s.drop_last()).contains_key(s[j].0) {
                let i = choose|i: int|
                    0 <= i < s.drop_last().len() && (#[trigger] s.drop_last()[i]).0 == s[j].0;
                assert(s[i].0 == s[j].0);
            }
        }
        assert(map_of(s2) =~= map_of(s).remove(s[j].0));
    } else {
        assert(s2.drop_last() =~= s.drop_last().remove(j));
        assert(s.drop_last()[j] == s[j]);
        lemma_map_of_remove(s.drop_last(), j);
        assert(s.last().0 != s[j].0);
        assert(s2.last() == s.last());
        assert(map_of(s2) =~= map_of(s).remove(s[j].0));
    }
}

} // verus!
