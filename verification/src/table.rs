//! Small lookup tables keyed by text or by integers, with unique keys.
use vstd::prelude::*;
use crate::text::str_eq;
use std::collections::HashMap;

verus! {

/// The value stored under `k` among the parallel key and value sequences (the first match).
pub open spec fn lookup<K, V>(keys: Seq<K>, vals: Seq<V>, k: K) -> Option<V>
    decreases keys.len(),
{
    if keys.len() == 0 || vals.len() == 0 {
        None
    } else if keys[0] == k {
        Some(vals[0])
    } else {
        lookup(keys.drop_first(), vals.drop_first(), k)
    }
}

proof fn lemma_lookup_push<K, V>(keys: Seq<K>, vals: Seq<V>, k: K, v: V, q: K)
    requires
        keys.len() == vals.len(),
        lookup(keys, vals, k) is None,
    ensures
        lookup(keys.push(k), vals.push(v), q) == if q == k {
            Some(v)
        } else {
            lookup(keys, vals, q)
        },
    decreases keys.len(),
{
    if keys.len() == 0 {
        assert(keys.push(k).drop_first() =~= Seq::<K>::empty());
        assert(vals.push(v).drop_first() =~= Seq::<V>::empty());
        assert(keys.push(k)[0] == k);
        assert(vals.push(v)[0] == v);
        assert(lookup(Seq::<K>::empty(), Seq::<V>::empty(), q) is None);
        assert(lookup(keys, vals, q) is None);
        if q != k {
            assert(lookup(keys.push(k), vals.push(v), q) == lookup(keys.push(k).drop_first(), vals.push(v).drop_first(), q));
        }
    } else {
        assert(keys.push(k).drop_first() =~= keys.drop_first().push(k));
        assert(vals.push(v).drop_first() =~= vals.drop_first().push(v));
        assert(keys.push(k)[0] == keys[0]);
        assert(vals.push(v)[0] == vals[0]);
        assert(keys[0] != k);
        if keys[0] != q {
            lemma_lookup_push(keys.drop_first(), vals.drop_first(), k, v, q);
        }
    }
}

proof fn lemma_lookup_set<K, V>(keys: Seq<K>, vals: Seq<V>, i: int, v: V, q: K)
    requires
        keys.len() == vals.len(),
        0 <= i < keys.len(),
        lookup(keys, vals, keys[i]) == Some(vals[i]),
        forall|j: int| 0 <= j < i ==> keys[j] != keys[i],
    ensures
        lookup(keys, vals.update(i, v), q) == if q == keys[i] {
            Some(v)
        } else {
            lookup(keys, vals, q)
        },
    decreases keys.len(),
{
    if i > 0 {
        assert(vals.update(i, v).drop_first() =~= vals.drop_first().update(i - 1, v));
        assert(keys.drop_first()[i - 1] == keys[i]);
        assert(keys[0] != keys[i]);
        assert(vals.update(i, v)[0] == vals[0]);
        assert forall|j: int| 0 <= j < i - 1 implies #[trigger] keys.drop_first()[j] != keys.drop_first()[i - 1] by {
            assert(keys.drop_first()[j] == keys[j + 1]);
        }
        if keys[0] != q {
            lemma_lookup_set(keys.drop_first(), vals.drop_first(), i - 1, v, q);
        }
    } else {
        assert(vals.update(0, v).drop_first() =~= vals.drop_first());
        assert(vals.update(0, v)[0] == v);
    }
}

proof fn lemma_lookup_index<K, V>(keys: Seq<K>, vals: Seq<V>, i: int)
    requires
        keys.len() == vals.len(),
        0 <= i < keys.len(),
        forall|j: int| 0 <= j < i ==> keys[j] != keys[i],
    ensures
        lookup(keys, vals, keys[i]) == Some(vals[i]),
    decreases i,
{
    if i > 0 {
        lemma_lookup_index(keys.drop_first(), vals.drop_first(), i - 1);
    }
}

proof fn lemma_lookup_none<K, V>(keys: Seq<K>, vals: Seq<V>, k: K)
    requires
        keys.len() == vals.len(),
        forall|j: int| 0 <= j < keys.len() ==> keys[j] != k,
    ensures
        lookup(keys, vals, k) is None,
    decreases keys.len(),
{
    if keys.len() > 0 {
        lemma_lookup_none(keys.drop_first(), vals.drop_first(), k);
    }
}

/// A table keyed by text.
pub struct StrMap<V> {
    keys: Vec<String>,
    vals: Vec<V>,
}

impl<V> StrMap<V> {
    pub closed spec fn key_view(&self) -> Seq<Seq<char>> {
        self.keys@.map_values(|s: String| s@)
    }

    pub closed spec fn wf(&self) -> bool {
        &&& self.keys@.len() == self.vals@.len()
    }

    /// What the table holds under `k`.
    pub closed spec fn get_spec(&self, k: Seq<char>) -> Option<V> {
        lookup(self.key_view(), self.vals@, k)
    }

    pub fn new() -> (m: Self)
        ensures
            m.wf(),
            forall|k: Seq<char>| m.get_spec(k) is None,
    {
        let m = StrMap { keys: Vec::new(), vals: Vec::new() };
        assert(m.key_view() =~= Seq::<Seq<char>>::empty());
        m
    }

    /// The index of the first key equal to `k`.
    fn index_of(&self, k: &str) -> (r: Option<usize>)
        requires
            self.wf(),
        ensures
            match r {
                Some(i) => i < self.keys@.len() && self.key_view()[i as int] == k@ && forall|j: int|
                    0 <= j < i ==> self.key_view()[j] != k@,
                None => forall|j: int| 0 <= j < self.keys@.len() ==> self.key_view()[j] != k@,
            },
    {
        let mut i: usize = 0;
        while i < self.keys.len()
            invariant
                i <= self.keys@.len(),
                forall|j: int| 0 <= j < i ==> self.key_view()[j] != k@,
            decreases self.keys@.len() - i,
        {
            if str_eq(self.keys[i].as_str(), k) {
                return Some(i);
            }
            i += 1;
        }
        None
    }

    pub fn get(&self, k: &str) -> (r: Option<&V>)
        requires
            self.wf(),
        ensures
            match r {
                Some(v) => self.get_spec(k@) == Some(*v),
                None => self.get_spec(k@) is None,
            },
    {
        match self.index_of(k) {
            Some(i) => {
                proof {
                    lemma_lookup_index(self.key_view(), self.vals@, i as int);
                }
                Some(&self.vals[i])
            },
            None => {
                proof {
                    lemma_lookup_none(self.key_view(), self.vals@, k@);
                }
                None
            },
        }
    }

    pub fn contains_key(&self, k: &str) -> (r: bool)
        requires
            self.wf(),
        ensures
            r == self.get_spec(k@) is Some,
    {
        self.get(k).is_some()
    }

    /// Stores `v` under `k`, replacing what was there.
    pub fn insert(&mut self, k: String, v: V)
        requires
            old(self).wf(),
        ensures
            final(self).wf(),
            final(self).get_spec(k@) == Some(v),
            forall|q: Seq<char>| q != k@ ==> final(self).get_spec(q) == old(self).get_spec(q),
    {
        match self.index_of(k.as_str()) {
            Some(i) => {
                proof {
                    lemma_lookup_index(self.key_view(), self.vals@, i as int);
                }
                let ghost ks = self.key_view();
                let ghost vs = self.vals@;
                self.vals.set(i, v);
                proof {
                    assert forall|q: Seq<char>| true implies #[trigger] lookup(ks, vs.update(i as int, v), q) == if q == ks[i as int] {
                        Some(v)
                    } else {
                        lookup(ks, vs, q)
                    } by {
                        lemma_lookup_set(ks, vs, i as int, v, q);
                    }
                }
            },
            None => {
                proof {
                    lemma_lookup_none(self.key_view(), self.vals@, k@);
                }
                let ghost ks = self.key_view();
                let ghost vs = self.vals@;
                let ghost kv = k@;
                self.keys.push(k);
                self.vals.push(v);
                proof {
                    assert(self.key_view() =~= ks.push(kv));
                    assert forall|q: Seq<char>| true implies #[trigger] lookup(ks.push(kv), vs.push(v), q) == if q == kv {
                        Some(v)
                    } else {
                        lookup(ks, vs, q)
                    } by {
                        lemma_lookup_push(ks, vs, kv, v, q);
                    }
                }
            },
        }
    }

    /// Stores `v` under `k` unless `k` is present already.
    pub fn insert_if_absent(&mut self, k: String, v: V)
        requires
            old(self).wf(),
        ensures
            final(self).wf(),
            final(self).get_spec(k@) == match old(self).get_spec(k@) {
                Some(x) => Some(x),
                None => Some(v),
            },
            forall|q: Seq<char>| q != k@ ==> final(self).get_spec(q) == old(self).get_spec(q),
    {
        if !self.contains_key(k.as_str()) {
            self.insert(k, v);
        }
    }
}

/// A table keyed by integers, held in a std `HashMap`.
pub struct IntMap<V> {
    map: HashMap<u64, V>,
}

impl<V> IntMap<V> {
    pub closed spec fn wf(&self) -> bool {
        true
    }

    pub closed spec fn get_spec(&self, k: u64) -> Option<V> {
        if self.map@.contains_key(k) {
            Some(self.map@[k])
        } else {
            None
        }
    }

    pub fn new() -> (m: Self)
        ensures
            m.wf(),
            forall|k: u64| m.get_spec(k) is None,
    {
        IntMap { map: HashMap::new() }
    }

    pub fn get(&self, k: u64) -> (r: Option<&V>)
        requires
            self.wf(),
        ensures
            match r {
                Some(v) => self.get_spec(k) == Some(*v),
                None => self.get_spec(k) is None,
            },
    {
        broadcast use vstd::std_specs::hash::group_hash_axioms;
        self.map.get(&k)
    }

    pub fn insert(&mut self, k: u64, v: V)
        requires
            old(self).wf(),
        ensures
            final(self).wf(),
            final(self).get_spec(k) == Some(v),
            forall|q: u64| q != k ==> final(self).get_spec(q) == old(self).get_spec(q),
    {
        broadcast use vstd::std_specs::hash::group_hash_axioms;
        self.map.insert(k, v);
    }

    /// Takes whatever is stored under `k` out of the table.
    pub fn remove(&mut self, k: u64)
        requires
            old(self).wf(),
        ensures
            final(self).wf(),
            final(self).get_spec(k) is None,
            forall|q: u64| q != k ==> final(self).get_spec(q) == old(self).get_spec(q),
    {
        broadcast use vstd::std_specs::hash::group_hash_axioms;
        self.map.remove(&k);
    }
}

} // verus!
