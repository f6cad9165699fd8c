//! A finite map kept as two parallel vectors with no repeated key.
use vstd::laws_eq::*;
use vstd::prelude::*;

verus! {

/// The map that a key vector and a value vector of the same length stand for,
/// each key mapped to the value at its own position.
pub open spec fn map_from<K, V>(keys: Seq<K>, vals: Seq<V>) -> Map<K, V> {
    Map::new(|k: K| keys.contains(k), |k: K| vals[keys.index_of(k)])
}

/// A finite map with keys compared by `==`.
pub struct KeyedStore<K, V> {
    keys: Vec<K>,
    vals: Vec<V>,
}

impl<K, V> View for KeyedStore<K, V> {
    type V = Map<K, V>;

    closed spec fn view(&self) -> Map<K, V> {
        map_from(self.keys@, self.vals@)
    }
}

/// Under no repeated key, the position of a key is the one it was found at.
proof fn lemma_index_of_unique<K>(keys: Seq<K>, i: int)
    requires
        keys.no_duplicates(),
        0 <= i < keys.len(),
    ensures
        keys.contains(keys[i]),
        keys.index_of(keys[i]) == i,
{
    assert(keys.contains(keys[i]));
}

proof fn lemma_map_from_at<K, V>(keys: Seq<K>, vals: Seq<V>, i: int)
    requires
        keys.no_duplicates(),
        keys.len() == vals.len(),
        0 <= i < keys.len(),
    ensures
        map_from(keys, vals).contains_key(keys[i]),
        map_from(keys, vals)[keys[i]] == vals[i],
{
    lemma_index_of_unique(keys, i);
}

proof fn lemma_map_from_remove<K, V>(keys: Seq<K>, vals: Seq<V>, i: int)
    requires
        keys.no_duplicates(),
        keys.len() == vals.len(),
        0 <= i < keys.len(),
    ensures
        keys.remove(i).no_duplicates(),
        map_from(keys.remove(i), vals.remove(i)) == map_from(keys, vals).remove(keys[i]),
{
    let k2 = keys.remove(i);
    let v2 = vals.remove(i);
    assert forall|a: int, b: int| 0 <= a < b < k2.len() implies k2[a] != k2[b] by {
        let oa = if a < i { a } else { a + 1 };
        let ob = if b < i { b } else { b + 1 };
        assert(k2[a] == keys[oa]);
        assert(k2[b] == keys[ob]);
    }
    let m = map_from(keys, vals).remove(keys[i]);
    let m2 = map_from(k2, v2);
    assert forall|k: K| m2.dom().contains(k) <==> m.dom().contains(k) by {
        if k2.contains(k) {
            let a = choose|a: int| 0 <= a < k2.len() && k2[a] == k;
            let oa = if a < i { a } else { a + 1 };
            assert(keys[oa] == k);
            assert(k != keys[i]);
        }
        if keys.contains(k) && k != keys[i] {
            let o = choose|o: int| 0 <= o < keys.len() && keys[o] == k;
            assert(o != i);
            let a = if o < i { o } else { o - 1 };
            assert(k2[a] == k);
        }
    }
    assert forall|k: K| #[trigger] m2.dom().contains(k) implies m2[k] == m[k] by {
        let a = k2.index_of(k);
        lemma_index_of_unique(k2, a);
        let oa = if a < i { a } else { a + 1 };
        assert(keys[oa] == k);
        lemma_index_of_unique(keys, oa);
    }
    assert(m2 =~= m);
}

proof fn lemma_map_from_update<K, V>(keys: Seq<K>, vals: Seq<V>, i: int, v: V)
    requires
        keys.no_duplicates(),
        keys.len() == vals.len(),
        0 <= i < keys.len(),
    ensures
        map_from(keys, vals.update(i, v)) == map_from(keys, vals).insert(keys[i], v),
{
    let m = map_from(keys, vals).insert(keys[i], v);
    let m2 = map_from(keys, vals.update(i, v));
    assert forall|k: K| #[trigger] m2.dom().contains(k) implies m2[k] == m[k] by {
        let a = keys.index_of(k);
        lemma_index_of_unique(keys, a);
    }
    assert(m2 =~= m);
}

proof fn lemma_map_from_push<K, V>(keys: Seq<K>, vals: Seq<V>, k: K, v: V)
    requires
        keys.no_duplicates(),
        keys.len() == vals.len(),
        !keys.contains(k),
    ensures
        keys.push(k).no_duplicates(),
        map_from(keys.push(k), vals.push(v)) == map_from(keys, vals).insert(k, v),
{
    let k2 = keys.push(k);
    assert forall|a: int, b: int| 0 <= a < b < k2.len() implies k2[a] != k2[b] by {
        if b == keys.len() {
            assert(keys[a] == k2[a]);
        }
    }
    let m = map_from(keys, vals).insert(k, v);
    let m2 = map_from(k2, vals.push(v));
    assert forall|x: K| m2.dom().contains(x) <==> m.dom().contains(x) by {
        if keys.contains(x) {
            let o = choose|o: int| 0 <= o < keys.len() && keys[o] == x;
            assert(k2[o] == x);
        }
        if k2.contains(x) && x != k {
            let o = choose|o: int| 0 <= o < k2.len() && k2[o] == x;
            assert(keys[o] == x);
        }
        if x == k {
            assert(k2[keys.len() as int] == x);
        }
    }
    assert forall|x: K| #[trigger] m2.dom().contains(x) implies m2[x] == m[x] by {
        let a = k2.index_of(x);
        lemma_index_of_unique(k2, a);
        if a < keys.len() {
            lemma_index_of_unique(keys, a);
        }
    }
    assert(m2 =~= m);
}

proof fn lemma_map_from_len<K, V>(keys: Seq<K>, vals: Seq<V>)
    requires
        keys.no_duplicates(),
        keys.len() == vals.len(),
    ensures
        map_from(keys, vals).dom().finite(),
        map_from(keys, vals).dom().len() == keys.len(),
{
    assert(map_from(keys, vals).dom() =~= keys.to_set());
    keys.unique_seq_to_set();
}

impl<K, V> KeyedStore<K, V> {
    /// No key occurs twice and every key has a value.
    pub closed spec fn wf(&self) -> bool {
        &&& self.keys@.len() == self.vals@.len()
        &&& self.keys@.no_duplicates()
    }

    /// Creates an empty store.
    pub fn new() -> (r: Self)
        ensures
            r.wf(),
            r@ == Map::<K, V>::empty(),
    {
        let r = KeyedStore { keys: Vec::new(), vals: Vec::new() };
        assert(r@ =~= Map::<K, V>::empty());
        r
    }

    /// The map of a store is always finite.
    pub proof fn lemma_finite(&self)
        requires
            self.wf(),
        ensures
            self@.dom().finite(),
    {
        lemma_map_from_len(self.keys@, self.vals@);
    }

    /// Returns the number of keys.
    pub fn len(&self) -> (r: usize)
        requires
            self.wf(),
        ensures
            self@.dom().finite(),
            r == self@.dom().len(),
    {
        proof {
            lemma_map_from_len(self.keys@, self.vals@);
        }
        self.keys.len()
    }

    fn position(&self, k: &K) -> (r: Option<usize>)
        where
            K: PartialEq,
        requires
            self.wf(),
            obeys_concrete_eq::<K>(),
        ensures
            match r {
                Some(i) => i < self.keys@.len() && self.keys@[i as int] == *k,
                None => !self.keys@.contains(*k),
            },
    {
        proof {
            reveal(obeys_concrete_eq);
        }
        let mut i: usize = 0;
        while i < self.keys.len()
            invariant
                self.wf(),
                obeys_concrete_eq::<K>(),
                i <= self.keys@.len(),
                forall|j: int| 0 <= j < i ==> self.keys@[j] != *k,
            decreases self.keys@.len() - i,
        {
            proof {
                reveal(obeys_concrete_eq);
            }
            if self.keys[i] == *k {
                return Some(i);
            }
            i = i + 1;
        }
        None
    }

    /// Whether the store holds `k`.
    pub fn contains_key(&self, k: &K) -> (r: bool)
        where
            K: PartialEq,
        requires
            self.wf(),
            obeys_concrete_eq::<K>(),
        ensures
            r == self@.contains_key(*k),
    {
        match self.position(k) {
            Some(i) => {
                proof {
                    lemma_map_from_at(self.keys@, self.vals@, i as int);
                }
                true
            },
            None => false,
        }
    }

    /// The value stored under `k`, if any.
    pub fn get(&self, k: &K) -> (r: Option<&V>)
        where
            K: PartialEq,
        requires
            self.wf(),
            obeys_concrete_eq::<K>(),
        ensures
            match r {
                Some(v) => self@.contains_key(*k) && *v == self@[*k],
                None => !self@.contains_key(*k),
            },
    {
        match self.position(k) {
            Some(i) => {
                proof {
                    lemma_map_from_at(self.keys@, self.vals@, i as int);
                }
                Some(&self.vals[i])
            },
            None => None,
        }
    }

    /// Stores `v` under `k`, replacing any earlier value.
    pub fn insert(&mut self, k: K, v: V)
        where
            K: PartialEq,
        requires
            old(self).wf(),
            obeys_concrete_eq::<K>(),
        ensures
            final(self).wf(),
            final(self)@ == old(self)@.insert(k, v),
    {
        match self.position(&k) {
            Some(i) => {
                proof {
                    lemma_map_from_update(self.keys@, self.vals@, i as int, v);
                }
                self.vals.set(i, v);
            },
            None => {
                proof {
                    lemma_map_from_push(self.keys@, self.vals@, k, v);
                }
                self.keys.push(k);
                self.vals.push(v);
            },
        }
    }

    /// Removes `k` and its value, if present.
    pub fn remove(&mut self, k: &K)
        where
            K: PartialEq,
        requires
            old(self).wf(),
            obeys_concrete_eq::<K>(),
        ensures
            final(self).wf(),
            final(self)@ == old(self)@.remove(*k),
    {
        match self.position(k) {
            Some(i) => {
                proof {
                    lemma_map_from_remove(self.keys@, self.vals@, i as int);
                }
                self.keys.remove(i);
                self.vals.remove(i);
            },
            None => {
                assert(self@ =~= old(self)@.remove(*k));
            },
        }
    }
    /// Keeps the entries for which `f` answers `true` and drops the others.
    pub fn retain<F: Fn(&K, &V) -> bool>(&mut self, f: F)
        requires
            old(self).wf(),
            forall|k: &K, v: &V| #[trigger] f.requires((k, v)),
        ensures
            final(self).wf(),
            forall|k: K|
                #[trigger] final(self)@.contains_key(k) ==> {
                    &&& old(self)@.contains_key(k)
                    &&& final(self)@[k] == old(self)@[k]
                    &&& f.ensures((&k, &old(self)@[k]), true)
                },
            forall|k: K|
                #[trigger] old(self)@.contains_key(k) && !final(self)@.contains_key(k) ==> f.ensures(
                    (&k, &old(self)@[k]),
                    false,
                ),
    {
        let ghost ok = self.keys@;
        let ghost ov = self.vals@;
        let ghost om = map_from(ok, ov);
        let mut i = self.keys.len();
        assert(ok.subrange(0, i as int) =~= ok);
        while i > 0
            invariant
                self.wf(),
                ok.no_duplicates(),
                ok.len() == ov.len(),
                om == map_from(ok, ov),
                i <= self.keys@.len(),
                i <= ok.len(),
                forall|j: int| 0 <= j < i ==> self.keys@[j] == ok[j] && self.vals@[j] == ov[j],
                forall|k: &K, v: &V| #[trigger] f.requires((k, v)),
                forall|k: K|
                    #[trigger] self@.contains_key(k) ==> {
                        &&& om.contains_key(k)
                        &&& self@[k] == om[k]
                        &&& (ok.subrange(0, i as int).contains(k) || f.ensures((&k, &om[k]), true))
                    },
                forall|k: K|
                    #[trigger] om.contains_key(k) && !self@.contains_key(k) ==> f.ensures(
                        (&k, &om[k]),
                        false,
                    ),
            decreases i,
        {
            let idx = i - 1;
            let keep = f(&self.keys[idx], &self.vals[idx]);
            let ghost k0 = ok[idx as int];
            proof {
                lemma_map_from_at(ok, ov, idx as int);
                lemma_map_from_at(self.keys@, self.vals@, idx as int);
                assert forall|k: K| ok.subrange(0, i as int).contains(k) && k != k0 implies ok.subrange(
                    0,
                    idx as int,
                ).contains(k) by {
                    let j = choose|j: int| 0 <= j < i && ok.subrange(0, i as int)[j] == k;
                    assert(j != idx);
                    assert(ok.subrange(0, idx as int)[j] == k);
                }
                assert(!ok.subrange(0, idx as int).contains(k0));
            }
            if !keep {
                let ghost pre = self@;
                proof {
                    lemma_map_from_remove(self.keys@, self.vals@, idx as int);
                }
                self.keys.remove(idx);
                self.vals.remove(idx);
                assert(self@ == pre.remove(k0));
            }
            i = idx;
        }
        proof {
            assert forall|k: K| !ok.subrange(0, 0).contains(k) by {}
        }
    }
}

} // verus!
