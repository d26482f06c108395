use vstd::prelude::*;

verus! {

/// A map from strings to values, held as a list of entries with distinct keys.
pub struct StrMap<V> {
    pub entries: Vec<(String, V)>,
}

impl<V> StrMap<V> {
    /// No two entries share a key.
    pub open spec fn wf(&self) -> bool {
        forall|i: int, j: int|
            0 <= i < self.entries@.len() && 0 <= j < self.entries@.len() && i != j
                ==> (#[trigger] self.entries@[i]).0@ != (#[trigger] self.entries@[j]).0@
    }

    pub open spec fn has_key_at(&self, k: Seq<char>, i: int) -> bool {
        0 <= i < self.entries@.len() && self.entries@[i].0@ == k
    }

    pub closed spec fn view(&self) -> Map<Seq<char>, V> {
        Map::new(
            |k: Seq<char>| exists|i: int| self.has_key_at(k, i),
            |k: Seq<char>| self.entries@[choose|i: int| self.has_key_at(k, i)].1,
        )
    }

    /// The entry at index `i` is what the map holds under its key.
    pub proof fn lemma_entry(&self, i: int)
        requires
            self.wf(),
            0 <= i < self.entries@.len(),
        ensures
            self@.contains_key(self.entries@[i].0@),
            self@[self.entries@[i].0@] == self.entries@[i].1,
    {
        let k = self.entries@[i].0@;
        assert(self.has_key_at(k, i));
        let j = choose|j: int| self.has_key_at(k, j);
        assert(i == j);
    }

    /// Every key of the map stands in some entry.
    pub proof fn lemma_key(&self, k: Seq<char>)
        requires
            self@.contains_key(k),
        ensures
            exists|i: int| self.has_key_at(k, i),
    {
    }

    /// The part of the map held by the first `i` entries.
    pub open spec fn prefix_view(&self, i: int) -> Map<Seq<char>, V> {
        Map::new(
            |k: Seq<char>| exists|j: int| 0 <= j < i && self.has_key_at(k, j),
            |k: Seq<char>| self@[k],
        )
    }

    pub proof fn lemma_prefix_empty(&self)
        ensures
            self.prefix_view(0) == Map::<Seq<char>, V>::empty(),
    {
        assert(self.prefix_view(0) =~= Map::<Seq<char>, V>::empty());
    }

    pub proof fn lemma_prefix_step(&self, i: int)
        requires
            self.wf(),
            0 <= i < self.entries@.len(),
        ensures
            self.prefix_view(i + 1) == self.prefix_view(i).insert(self.entries@[i].0@, self.entries@[i].1),
            !self.prefix_view(i).contains_key(self.entries@[i].0@),
    {
        self.lemma_entry(i);
        assert(self.has_key_at(self.entries@[i].0@, i));
        assert forall|k: Seq<char>| self.prefix_view(i + 1).contains_key(k) <==> self.prefix_view(i).insert(
            self.entries@[i].0@,
            self.entries@[i].1,
        ).contains_key(k) by {
            if self.prefix_view(i + 1).contains_key(k) {
                let j = choose|j: int| 0 <= j < i + 1 && self.has_key_at(k, j);
                if j < i {
                    assert(self.prefix_view(i).contains_key(k));
                }
            }
            if self.prefix_view(i).contains_key(k) {
                let j = choose|j: int| 0 <= j < i && self.has_key_at(k, j);
                assert(0 <= j < i + 1 && self.has_key_at(k, j));
            }
        }
        assert(self.prefix_view(i + 1) =~= self.prefix_view(i).insert(self.entries@[i].0@, self.entries@[i].1));
    }

    pub proof fn lemma_prefix_full(&self)
        requires
            self.wf(),
        ensures
            self.prefix_view(self.entries@.len() as int) == self@,
    {
        assert forall|k: Seq<char>| self@.contains_key(k) implies self.prefix_view(self.entries@.len() as int).contains_key(k) by {
            let j = choose|j: int| self.has_key_at(k, j);
        }
        assert(self.prefix_view(self.entries@.len() as int) =~= self@);
    }

    pub fn new() -> (r: Self)
        ensures
            r.wf(),
            r@ == Map::<Seq<char>, V>::empty(),
    {
        let r = StrMap { entries: Vec::new() };
        assert(r@ =~= Map::<Seq<char>, V>::empty());
        r
    }

    pub fn len(&self) -> (r: usize)
        requires
            self.wf(),
        ensures
            r == self@.len(),
    {
        proof {
            self.lemma_len();
        }
        self.entries.len()
    }

    pub proof fn lemma_len(&self)
        requires
            self.wf(),
        ensures
            self@.dom().finite(),
            self@.len() == self.entries@.len(),
        decreases self.entries@.len(),
    {
        let keys = self.entries@.map_values(|e: (String, V)| e.0@);
        assert forall|k: Seq<char>| self@.contains_key(k) <==> keys.contains(k) by {
            if self@.contains_key(k) {
                let i = choose|i: int| self.has_key_at(k, i);
                assert(keys[i] == k);
            }
            if keys.contains(k) {
                let i = choose|i: int| 0 <= i < keys.len() && keys[i] == k;
                assert(self.has_key_at(k, i));
            }
        }
        assert(keys.no_duplicates()) by {
            assert forall|i: int, j: int| 0 <= i < keys.len() && 0 <= j < keys.len() && i != j
                implies keys[i] != keys[j] by {
                assert(self.entries@[i].0@ != self.entries@[j].0@);
            }
        }
        assert(self@.dom() =~= keys.to_set());
        keys.unique_seq_to_set();
    }

    pub fn is_empty(&self) -> (r: bool)
        requires
            self.wf(),
        ensures
            r == (self@ == Map::<Seq<char>, V>::empty()),
    {
        proof {
            self.lemma_len();
            if self.entries@.len() > 0 {
                self.lemma_entry(0);
            } else {
                assert(self@ =~= Map::<Seq<char>, V>::empty());
            }
        }
        self.entries.len() == 0
    }

    /// The index of the entry with key `k`, if there is one.
    pub fn find(&self, k: &String) -> (r: Option<usize>)
        requires
            self.wf(),
        ensures
            match r {
                Some(i) => self.has_key_at(k@, i as int) && self@.contains_key(k@) && self@[k@]
                    == self.entries@[i as int].1,
                None => !self@.contains_key(k@),
            },
    {
        let mut i: usize = 0;
        while i < self.entries.len()
            invariant
                self.wf(),
                i <= self.entries@.len(),
                forall|j: int| 0 <= j < i ==> self.entries@[j].0@ != k@,
            decreases self.entries@.len() - i,
        {
            if self.entries[i].0 == *k {
                proof {
                    self.lemma_entry(i as int);
                }
                return Some(i);
            }
            i = i + 1;
        }
        None
    }

    pub fn contains_key(&self, k: &String) -> (r: bool)
        requires
            self.wf(),
        ensures
            r == self@.contains_key(k@),
    {
        self.find(k).is_some()
    }

    pub fn get(&self, k: &String) -> (r: Option<&V>)
        requires
            self.wf(),
        ensures
            match r {
                Some(v) => self@.contains_key(k@) && *v == self@[k@],
                None => !self@.contains_key(k@),
            },
    {
        match self.find(k) {
            Some(i) => Some(&self.entries[i].1),
            None => None,
        }
    }

    /// Sets the value under `k`, in place where the key is present.
    pub fn insert(&mut self, k: String, v: V)
        requires
            old(self).wf(),
        ensures
            final(self).wf(),
            final(self)@ == old(self)@.insert(k@, v),
    {
        let ghost kv = k@;
        match self.find(&k) {
            Some(i) => {
                self.entries.set(i, (k, v));
                proof {
                    assert forall|j: int| 0 <= j < self.entries@.len() && j != i implies
                        self.entries@[j] == old(self).entries@[j] by {}
                    assert forall|q: Seq<char>| self@.contains_key(q) <==> old(self)@.insert(kv, v).contains_key(q) by {
                        if self@.contains_key(q) {
                            let j = choose|j: int| self.has_key_at(q, j);
                            if q != kv {
                                assert(old(self).has_key_at(q, j));
                            }
                        }
                        if old(self)@.contains_key(q) && q != kv {
                            let j = choose|j: int| old(self).has_key_at(q, j);
                            assert(self.has_key_at(q, j));
                        }
                        if q == kv {
                            assert(self.has_key_at(q, i as int));
                        }
                    }
                    assert forall|q: Seq<char>| #[trigger] self@.contains_key(q) implies self@[q]
                        == old(self)@.insert(kv, v)[q] by {
                        let j = choose|j: int| self.has_key_at(q, j);
                        self.lemma_entry(j);
                        if q != kv {
                            old(self).lemma_entry(j);
                        }
                    }
                    assert(self@ =~= old(self)@.insert(kv, v));
                }
            },
            None => {
                self.entries.push((k, v));
                proof {
                    let n = old(self).entries@.len() as int;
                    assert forall|j: int| 0 <= j < n implies self.entries@[j] == old(self).entries@[j] by {}
                    assert forall|j: int| 0 <= j < n implies old(self).entries@[j].0@ != kv by {
                        if old(self).entries@[j].0@ == kv {
                            assert(old(self).has_key_at(kv, j));
                        }
                    }
                    assert(self.wf());
                    assert forall|q: Seq<char>| self@.contains_key(q) <==> old(self)@.insert(kv, v).contains_key(q) by {
                        if self@.contains_key(q) {
                            let j = choose|j: int| self.has_key_at(q, j);
                            if q != kv {
                                assert(old(self).has_key_at(q, j));
                            }
                        }
                        if old(self)@.contains_key(q) && q != kv {
                            let j = choose|j: int| old(self).has_key_at(q, j);
                            assert(self.has_key_at(q, j));
                        }
                        if q == kv {
                            assert(self.has_key_at(q, n));
                        }
                    }
                    assert forall|q: Seq<char>| #[trigger] self@.contains_key(q) implies self@[q]
                        == old(self)@.insert(kv, v)[q] by {
                        let j = choose|j: int| self.has_key_at(q, j);
                        self.lemma_entry(j);
                        if q != kv {
                            old(self).lemma_entry(j);
                        }
                    }
                    assert(self@ =~= old(self)@.insert(kv, v));
                }
            },
        }
    }

    /// Takes the entry under `k` out of the map.
    pub fn remove(&mut self, k: &String) -> (r: Option<V>)
        requires
            old(self).wf(),
        ensures
            final(self).wf(),
            final(self)@ == old(self)@.remove(k@),
            match r {
                Some(v) => old(self)@.contains_key(k@) && v == old(self)@[k@],
                None => !old(self)@.contains_key(k@),
            },
    {
        match self.find(k) {
            Some(i) => {
                let e = self.entries.remove(i);
                proof {
                    let kv = k@;
                    assert forall|q: Seq<char>| self@.contains_key(q) <==> old(self)@.remove(kv).contains_key(q) by {
                        if self@.contains_key(q) {
                            let j = choose|j: int| self.has_key_at(q, j);
                            if j < i {
                                assert(old(self).has_key_at(q, j));
                            } else {
                                assert(old(self).has_key_at(q, j + 1));
                            }
                        }
                        if old(self)@.contains_key(q) && q != kv {
                            let j = choose|j: int| old(self).has_key_at(q, j);
                            if j < i {
                                assert(self.has_key_at(q, j));
                            } else {
                                assert(self.has_key_at(q, j - 1));
                            }
                        }
                    }
                    assert forall|q: Seq<char>| #[trigger] self@.contains_key(q) implies self@[q]
                        == old(self)@.remove(kv)[q] by {
                        let j = choose|j: int| self.has_key_at(q, j);
                        self.lemma_entry(j);
                        if j < i {
                            old(self).lemma_entry(j);
                        } else {
                            old(self).lemma_entry(j + 1);
                        }
                    }
                    assert(self@ =~= old(self)@.remove(kv));
                }
                Some(e.1)
            },
            None => {
                assert(self@ =~= old(self)@.remove(k@));
                None
            },
        }
    }

    /// The keys of the map, each once.
    pub fn keys(&self) -> (r: Vec<String>)
        requires
            self.wf(),
        ensures
            r@.len() == self.entries@.len(),
            forall|i: int| 0 <= i < r@.len() ==> #[trigger] r@[i] == self.entries@[i].0,
    {
        let mut r: Vec<String> = Vec::new();
        let mut i: usize = 0;
        while i < self.entries.len()
            invariant
                i <= self.entries@.len(),
                r@.len() == i,
                forall|j: int| 0 <= j < i ==> #[trigger] r@[j] == self.entries@[j].0,
            decreases self.entries@.len() - i,
        {
            r.push(self.entries[i].0.clone());
            i = i + 1;
        }
        r
    }
}

} // verus!
