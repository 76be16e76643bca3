//! A table from texts to values that keeps the order in which its keys came.
use crate::base::text::same_text;
use vstd::prelude::*;

verus! {

/// Values by text, each key once, in the order in which the keys came.
pub struct TextTable<V> {
    pairs: Vec<(String, V)>,
}

/// The keys of pairs.
spec fn keys_of<V>(pairs: Seq<(String, V)>) -> Seq<Seq<char>> {
    pairs.map_values(|p: (String, V)| p.0@)
}

impl<V> TextTable<V> {
    /// The keys, in the order in which they came.
    pub closed spec fn keys(&self) -> Seq<Seq<char>> {
        keys_of(self.pairs@)
    }

    /// The values, in the order in which their keys came.
    pub closed spec fn values(&self) -> Seq<V> {
        self.pairs@.map_values(|p: (String, V)| p.1)
    }

    /// The values by key.
    pub open spec fn map(&self) -> Map<Seq<char>, V> {
        Map::new(
            |k: Seq<char>| self.keys().contains(k),
            |k: Seq<char>| self.values()[self.keys().index_of(k)],
        )
    }

    /// There is a value for each key, and no key comes twice.
    pub open spec fn wf(&self) -> bool {
        &&& self.keys().no_duplicates()
        &&& self.values().len() == self.keys().len()
    }

    /// The value that stands beside a key is the one of that key.
    pub(crate) proof fn value_at(&self, i: int)
        requires
            self.wf(),
            0 <= i < self.keys().len(),
        ensures
            self.map().contains_key(self.keys()[i]),
            self.map()[self.keys()[i]] == self.values()[i],
    {
        let k = self.keys()[i];
        assert(self.keys().contains(k));
        assert(self.keys()[self.keys().index_of(k)] == k);
    }

    /// An empty table.
    pub fn new() -> (res: Self)
        ensures
            res.wf(),
            res.keys() == Seq::<Seq<char>>::empty(),
            res.map() == Map::<Seq<char>, V>::empty(),
    {
        let res = TextTable { pairs: Vec::new() };
        assert(res.keys() =~= Seq::<Seq<char>>::empty());
        assert(res.map() =~= Map::<Seq<char>, V>::empty());
        res
    }

    /// The number of keys.
    pub fn len(&self) -> (res: usize)
        ensures
            res == self.keys().len(),
    {
        self.pairs.len()
    }

    /// The key with number `i`.
    pub fn key(&self, i: usize) -> (res: &String)
        requires
            i < self.keys().len(),
        ensures
            res@ == self.keys()[i as int],
    {
        &self.pairs[i].0
    }

    /// The value with number `i`.
    pub fn value(&self, i: usize) -> (res: &V)
        requires
            self.wf(),
            i < self.keys().len(),
        ensures
            *res == self.values()[i as int],
            *res == self.map()[self.keys()[i as int]],
            self.map().contains_key(self.keys()[i as int]),
    {
        proof {
            self.value_at(i as int);
        }
        &self.pairs[i].1
    }

    /// The number of a key.
    fn find(&self, key: &str) -> (res: Option<usize>)
        requires
            self.wf(),
        ensures
            res is Some <==> self.map().contains_key(key@),
            res matches Some(i) ==> i < self.keys().len() && self.keys()[i as int] == key@
                && self.values()[i as int] == self.map()[key@],
    {
        let mut i: usize = 0;
        while i < self.pairs.len()
            invariant
                self.wf(),
                i <= self.pairs@.len(),
                self.keys().len() == self.pairs@.len(),
                forall|j: int| 0 <= j < i ==> #[trigger] self.keys()[j] != key@,
            decreases self.pairs@.len() - i,
        {
            if same_text(self.pairs[i].0.as_str(), key) {
                proof {
                    assert(self.keys()[i as int] == key@);
                    self.value_at(i as int);
                }
                return Some(i);
            }
            assert(self.keys()[i as int] != key@);
            i = i + 1;
        }
        None
    }

    /// The value of a key.
    pub fn get(&self, key: &str) -> (res: Option<&V>)
        requires
            self.wf(),
        ensures
            res is Some <==> self.map().contains_key(key@),
            res matches Some(v) ==> *v == self.map()[key@],
    {
        match self.find(key) {
            Some(i) => Some(&self.pairs[i].1),
            None => None,
        }
    }

    /// The value with number `i`, to be changed.
    fn slot(&mut self, i: usize) -> (res: &mut V)
        requires
            i < old(self).keys().len(),
        ensures
            *res == old(self).values()[i as int],
            final(self).keys() =~= old(self).keys(),
            final(self).values() =~= old(self).values().update(i as int, *final(res)),
    {
        &mut self.pairs[i].1
    }

    /// The value of a key, to be changed.
    pub fn get_mut(&mut self, key: &str) -> (res: Option<&mut V>)
        requires
            old(self).wf(),
        ensures
            final(self).wf(),
            final(self).keys() == old(self).keys(),
            res is Some <==> old(self).map().contains_key(key@),
            res is None ==> final(self).map() == old(self).map(),
            res matches Some(v) ==> *v == old(self).map()[key@] && final(self).map() == old(
                self,
            ).map().insert(key@, *final(v)),
    {
        match self.find(key) {
            Some(i) => {
                proof {
                    assert forall|t: Self|
                        t.keys() == self.keys() && #[trigger] t.values() == self.values().update(
                            i as int,
                            t.values()[i as int],
                        ) implies t.wf() && t.map() == self.map().insert(
                        key@,
                        t.values()[i as int],
                    ) by {
                        t.same_keys(self, i as int);
                    }
                }
                Some(self.slot(i))
            },
            None => None,
        }
    }

    /// Sets the value of a key. A new key comes last; one that is there stays in its place.
    pub fn insert(&mut self, key: String, value: V)
        requires
            old(self).wf(),
        ensures
            final(self).wf(),
            final(self).map() == old(self).map().insert(key@, value),
            final(self).keys() == (if old(self).map().contains_key(key@) {
                old(self).keys()
            } else {
                old(self).keys().push(key@)
            }),
    {
        match self.find(key.as_str()) {
            Some(i) => {
                self.pairs.set(i, (key, value));
                assert(self.keys() =~= old(self).keys());
                assert(self.values() =~= old(self).values().update(i as int, value));
                proof {
                    self.same_keys(old(self), i as int);
                }
            },
            None => {
                self.pairs.push((key, value));
                proof {
                    let keys = old(self).keys();
                    assert(self.keys() =~= keys.push(key@));
                    assert(self.values() =~= old(self).values().push(value));
                    assert(!keys.contains(key@));
                    assert forall|k: Seq<char>| self.map().contains_key(k) <==> old(
                        self,
                    ).map().insert(key@, value).contains_key(k) by {
                        if keys.contains(k) {
                            let i = keys.index_of(k);
                            assert(self.keys()[i] == k);
                        }
                        if k == key@ {
                            assert(self.keys()[keys.len() as int] == k);
                        }
                        if self.keys().contains(k) {
                            let i = self.keys().index_of(k);
                            if i < keys.len() {
                                assert(keys[i] == k);
                            }
                        }
                    }
                    assert forall|k: Seq<char>| self.map().contains_key(k) implies self.map()[k]
                        == old(self).map().insert(key@, value)[k] by {
                        if k == key@ {
                            self.value_at(keys.len() as int);
                        } else {
                            let i = keys.index_of(k);
                            self.value_at(i);
                            old(self).value_at(i);
                        }
                    }
                    assert(self.map() =~= old(self).map().insert(key@, value));
                }
            },
        }
    }

    /// Changing the value with number `i` changes the map at its key.
    proof fn same_keys(&self, before: &Self, i: int)
        requires
            before.wf(),
            0 <= i < before.keys().len(),
            self.keys() == before.keys(),
            self.values() == before.values().update(i, self.values()[i]),
        ensures
            self.wf(),
            self.map() == before.map().insert(before.keys()[i], self.values()[i]),
    {
        let key = before.keys()[i];
        assert forall|k: Seq<char>| self.map().contains_key(k) implies self.map()[k]
            == before.map().insert(key, self.values()[i])[k] by {
            let j = self.keys().index_of(k);
            assert(self.keys()[j] == k);
        }
        assert(self.keys().contains(key));
        assert(self.map() =~= before.map().insert(key, self.values()[i]));
    }
}

} // verus!
