use vstd::prelude::*;

verus! {

/// Broker ids mapped to addresses, held as a list of entries with distinct ids.
pub struct IdMap {
    pub entries: Vec<(i64, String)>,
}

impl IdMap {
    /// No two entries share a key.
    pub open spec fn wf(&self) -> bool {
        forall|i: int, j: int|
            0 <= i < self.entries@.len() && 0 <= j < self.entries@.len() && i != j
                ==> (#[trigger] self.entries@[i]).0 != (#[trigger] self.entries@[j]).0
    }

    pub open spec fn has_key_at(&self, k: i64, i: int) -> bool {
        0 <= i < self.entries@.len() && self.entries@[i].0 == k
    }

    pub closed spec fn view(&self) -> Map<i64, String> {
        Map::new(
            |k: i64| exists|i: int| self.has_key_at(k, i),
            |k: i64| self.entries@[choose|i: int| self.has_key_at(k, i)].1,
        )
    }

    /// The entry at index `i` is what the map holds under its key.
    pub proof fn lemma_entry(&self, i: int)
        requires
            self.wf(),
            0 <= i < self.entries@.len(),
        ensures
            self@.contains_key(self.entries@[i].0),
            self@[self.entries@[i].0] == self.entries@[i].1,
    {
        let k = self.entries@[i].0;
        assert(self.has_key_at(k, i));
        let j = choose|j: int| self.has_key_at(k, j);
        assert(i == j);
    }

    /// Every key of the map stands in some entry.
    pub proof fn lemma_key(&self, k: i64)
        requires
            self@.contains_key(k),
        ensures
            exists|i: int| self.has_key_at(k, i),
    {
    }

    pub fn new() -> (r: Self)
        ensures
            r.wf(),
            r@ == Map::<i64, String>::empty(),
    {
        let r = IdMap { entries: Vec::new() };
        assert(r@ =~= Map::<i64, String>::empty());
        r
    }

    pub fn len(&self) -> (r: usize)
        requires
            self.wf(),
        ensures
            r == self@.len(),
    {
        proof {
            self.lemma_len();
        }
        self.entries.len()
    }

    pub proof fn lemma_len(&self)
        requires
            self.wf(),
        ensures
            self@.dom().finite(),
            self@.len() == self.entries@.len(),
        decreases self.entries@.len(),
    {
        let keys = self.entries@.map_values(|e: (i64, String)| e.0);
        assert forall|k: i64| self@.contains_key(k) <==> keys.contains(k) by {
            if self@.contains_key(k) {
                let i = choose|i: int| self.has_key_at(k, i);
                assert(keys[i] == k);
            }
            if keys.contains(k) {
                let i = choose|i: int| 0 <= i < keys.len() && keys[i] == k;
                assert(self.has_key_at(k, i));
            }
        }
        assert(keys.no_duplicates()) by {
            assert forall|i: int, j: int| 0 <= i < keys.len() && 0 <= j < keys.len() && i != j
                implies keys[i] != keys[j] by {
                assert(self.entries@[i].0 != self.entries@[j].0);
            }
        }
        assert(self@.dom() =~= keys.to_set());
        keys.unique_seq_to_set();
    }

    /// The index of the entry with key `k`, if there is one.
    pub fn find(&self, k: i64) -> (r: Option<usize>)
        requires
            self.wf(),
        ensures
            match r {
                Some(i) => self.has_key_at(k, i as int) && self@.contains_key(k) && self@[k]
                    == self.entries@[i as int].1,
                None => !self@.contains_key(k),
            },
    {
        let mut i: usize = 0;
        while i < self.entries.len()
            invariant
                self.wf(),
                i <= self.entries@.len(),
                forall|j: int| 0 <= j < i ==> self.entries@[j].0 != k,
            decreases self.entries@.len() - i,
        {
            if self.entries[i].0 == k {
                proof {
                    self.lemma_entry(i as int);
                }
                return Some(i);
            }
            i = i + 1;
        }
        None
    }

    pub fn contains_key(&self, k: i64) -> (r: bool)
        requires
            self.wf(),
        ensures
            r == self@.contains_key(k),
    {
        self.find(k).is_some()
    }

    pub fn get(&self, k: i64) -> (r: Option<&String>)
        requires
            self.wf(),
        ensures
            match r {
                Some(v) => self@.contains_key(k) && *v == self@[k],
                None => !self@.contains_key(k),
            },
    {
        match self.find(k) {
            Some(i) => Some(&self.entries[i].1),
            None => None,
        }
    }

    /// Sets the value under `k`, in place where the key is present.
    pub fn insert(&mut self, k: i64, v: String)
        requires
            old(self).wf(),
        ensures
            final(self).wf(),
            final(self)@ == old(self)@.insert(k, v),
    {
        let ghost kv = k;
        match self.find(k) {
            Some(i) => {
                self.entries.set(i, (k, v));
                proof {
                    assert forall|j: int| 0 <= j < self.entries@.len() && j != i implies
                        self.entries@[j] == old(self).entries@[j] by {}
                    assert forall|q: i64| self@.contains_key(q) <==> old(self)@.insert(kv, v).contains_key(q) by {
                        if self@.contains_key(q) {
                            let j = choose|j: int| self.has_key_at(q, j);
                            if q != kv {
                                assert(old(self).has_key_at(q, j));
                            }
                        }
                        if old(self)@.contains_key(q) && q != kv {
                            let j = choose|j: int| old(self).has_key_at(q, j);
                            assert(self.has_key_at(q, j));
                        }
                        if q == kv {
                            assert(self.has_key_at(q, i as int));
                        }
                    }
                    assert forall|q: i64| #[trigger] self@.contains_key(q) implies self@[q]
                        == old(self)@.insert(kv, v)[q] by {
                        let j = choose|j: int| self.has_key_at(q, j);
                        self.lemma_entry(j);
                        if q != kv {
                            old(self).lemma_entry(j);
                        }
                    }
                    assert(self@ =~= old(self)@.insert(kv, v));
                }
            },
            None => {
                self.entries.push((k, v));
                proof {
                    let n = old(self).entries@.len() as int;
                    assert forall|j: int| 0 <= j < n implies self.entries@[j] == old(self).entries@[j] by {}
                    assert forall|j: int| 0 <= j < n implies old(self).entries@[j].0 != kv by {
                        if old(self).entries@[j].0 == kv {
                            assert(old(self).has_key_at(kv, j));
                        }
                    }
                    assert(self.wf());
                    assert forall|q: i64| self@.contains_key(q) <==> old(self)@.insert(kv, v).contains_key(q) by {
                        if self@.contains_key(q) {
                            let j = choose|j: int| self.has_key_at(q, j);
                            if q != kv {
                                assert(old(self).has_key_at(q, j));
                            }
                        }
                        if old(self)@.contains_key(q) && q != kv {
                            let j = choose|j: int| old(self).has_key_at(q, j);
                            assert(self.has_key_at(q, j));
                        }
                        if q == kv {
                            assert(self.has_key_at(q, n));
                        }
                    }
                    assert forall|q: i64| #[trigger] self@.contains_key(q) implies self@[q]
                        == old(self)@.insert(kv, v)[q] by {
                        let j = choose|j: int| self.has_key_at(q, j);
                        self.lemma_entry(j);
                        if q != kv {
                            old(self).lemma_entry(j);
                        }
                    }
                    assert(self@ =~= old(self)@.insert(kv, v));
                }
            },
        }
    }

    /// Takes the entry under `k` out of the map.
    pub fn remove(&mut self, k: i64) -> (r: Option<String>)
        requires
            old(self).wf(),
        ensures
            final(self).wf(),
            final(self)@ == old(self)@.remove(k),
            match r {
                Some(v) => old(self)@.contains_key(k) && v == old(self)@[k],
                None => !old(self)@.contains_key(k),
            },
    {
        match self.find(k) {
            Some(i) => {
                let e = self.entries.remove(i);
                proof {
                    let kv = k;
                    assert forall|q: i64| self@.contains_key(q) <==> old(self)@.remove(kv).contains_key(q) by {
                        if self@.contains_key(q) {
                            let j = choose|j: int| self.has_key_at(q, j);
                            if j < i {
                                assert(old(self).has_key_at(q, j));
                            } else {
                                assert(old(self).has_key_at(q, j + 1));
                            }
                        }
                        if old(self)@.contains_key(q) && q != kv {
                            let j = choose|j: int| old(self).has_key_at(q, j);
                            if j < i {
                                assert(self.has_key_at(q, j));
                            } else {
                                assert(self.has_key_at(q, j - 1));
                            }
                        }
                    }
                    assert forall|q: i64| #[trigger] self@.contains_key(q) implies self@[q]
                        == old(self)@.remove(kv)[q] by {
                        let j = choose|j: int| self.has_key_at(q, j);
                        self.lemma_entry(j);
                        if j < i {
                            old(self).lemma_entry(j);
                        } else {
                            old(self).lemma_entry(j + 1);
                        }
                    }
                    assert(self@ =~= old(self)@.remove(kv));
                }
                Some(e.1)
            },
            None => {
                assert(self@ =~= old(self)@.remove(k));
                None
            },
        }
    }

    /// The ids of the map, each once.
    pub fn keys(&self) -> (r: Vec<i64>)
        requires
            self.wf(),
        ensures
            r@.len() == self.entries@.len(),
            forall|i: int| 0 <= i < r@.len() ==> #[trigger] r@[i] == self.entries@[i].0,
    {
        let mut r: Vec<i64> = Vec::new();
        let mut i: usize = 0;
        while i < self.entries.len()
            invariant
                i <= self.entries@.len(),
                r@.len() == i,
                forall|j: int| 0 <= j < i ==> #[trigger] r@[j] == self.entries@[j].0,
            decreases self.entries@.len() - i,
        {
            r.push(self.entries[i].0);
            i = i + 1;
        }
        r
    }
    pub fn is_empty(&self) -> (r: bool)
        requires
            self.wf(),
        ensures
            r == (self@.len() == 0),
            r == (self@ == Map::<i64, String>::empty()),
            r == (self.entries@.len() == 0),
    {
        proof {
            self.lemma_len();
            if self.entries@.len() > 0 {
                self.lemma_entry(0);
            } else {
                assert(self@ =~= Map::<i64, String>::empty());
            }
        }
        self.entries.len() == 0
    }

    /// The smallest id of the map, if it holds any.
    pub fn min_key(&self) -> (r: Option<i64>)
        requires
            self.wf(),
        ensures
            match r {
                Some(m) => is_min_id(self@, m),
                None => self@ == Map::<i64, String>::empty(),
            },
    {
        if self.is_empty() {
            return None;
        }
        let mut m: i64 = self.entries[0].0;
        let mut i: usize = 1;
        proof {
            self.lemma_entry(0);
        }
        while i < self.entries.len()
            invariant
                self.wf(),
                1 <= i <= self.entries@.len(),
                self@.contains_key(m),
                forall|j: int| 0 <= j < i ==> m <= #[trigger] self.entries@[j].0,
            decreases self.entries@.len() - i,
        {
            if self.entries[i].0 < m {
                m = self.entries[i].0;
                proof {
                    self.lemma_entry(i as int);
                }
            }
            i = i + 1;
        }
        proof {
            assert forall|k: i64| #[trigger] self@.contains_key(k) implies m <= k by {
                self.lemma_key(k);
            }
        }
        Some(m)
    }

    /// Drops every entry that holds `addr` under an id other than `keep`.
    pub fn remove_by_addr(&mut self, keep: i64, addr: &String)
        requires
            old(self).wf(),
        ensures
            final(self).wf(),
            final(self)@ == without_addr(old(self)@, keep, addr@),
    {
        let ks = self.keys();
        let ghost ks0 = ks@;
        let mut i: usize = 0;
        while i < ks.len()
            invariant
                self.wf(),
                ks@ == ks0,
                ks0.len() == old(self).entries@.len(),
                forall|j: int| 0 <= j < ks0.len() ==> #[trigger] ks0[j] == old(self).entries@[j].0,
                i <= ks0.len(),
                forall|q: i64| #[trigger] self@.contains_key(q) ==> old(self)@.contains_key(q) && self@[q] == old(self)@[q],
                forall|q: i64| #[trigger] old(self)@.contains_key(q) ==> (self@.contains_key(q) <==>
                    !(q != keep && old(self)@[q]@ == addr@ && exists|j: int| 0 <= j < i && ks0[j] == q)),
            decreases ks0.len() - i,
        {
            let k = ks[i];
            let drop = match self.get(k) {
                Some(a) => k != keep && *a == *addr,
                None => false,
            };
            if drop {
                self.remove(k);
            }
            proof {
                assert forall|q: i64| #[trigger] old(self)@.contains_key(q) implies (self@.contains_key(q) <==>
                    !(q != keep && old(self)@[q]@ == addr@ && exists|j: int| 0 <= j < i + 1 && ks0[j] == q)) by {
                    if q == k {
                        assert(ks0[i as int] == q);
                    } else {
                        if exists|j: int| 0 <= j < i + 1 && ks0[j] == q {
                            let j = choose|j: int| 0 <= j < i + 1 && ks0[j] == q;
                            assert(j != i);
                        }
                    }
                }
            }
            i = i + 1;
        }
        proof {
            assert forall|q: i64| #[trigger] old(self)@.contains_key(q) implies exists|j: int| 0 <= j < ks0.len() && ks0[j] == q by {
                old(self).lemma_key(q);
                let j = choose|j: int| old(self).has_key_at(q, j);
                assert(ks0[j] == q);
            }
            assert(self@ =~= without_addr(old(self)@, keep, addr@));
        }
    }

    /// Drops every entry that holds `addr`.
    pub fn remove_addr(&mut self, addr: &String)
        requires
            old(self).wf(),
        ensures
            final(self).wf(),
            final(self)@ == drop_addr(old(self)@, addr@),
    {
        self.remove_by_addr(0, addr);
        let hit = match self.get(0) {
            Some(a) => *a == *addr,
            None => false,
        };
        if hit {
            self.remove(0);
        }
        assert(self@ =~= drop_addr(old(self)@, addr@));
    }

    /// A copy of the map, with each address copied.
    pub fn copy(&self) -> (r: Self)
        requires
            self.wf(),
        ensures
            r.wf(),
            r@ == self@,
            r.entries@ == self.entries@,
    {
        let mut v: Vec<(i64, String)> = Vec::new();
        let mut i: usize = 0;
        while i < self.entries.len()
            invariant
                i <= self.entries@.len(),
                v@ == self.entries@.subrange(0, i as int),
            decreases self.entries@.len() - i,
        {
            let e = &self.entries[i];
            v.push((e.0, e.1.clone()));
            i = i + 1;
            assert(v@ =~= self.entries@.subrange(0, i as int));
        }
        assert(v@ =~= self.entries@);
        let r = IdMap { entries: v };
        assert forall|k: i64, i: int| r.has_key_at(k, i) == self.has_key_at(k, i) by {}
        assert(r@ =~= self@);
        r
    }
}

/// `m` is the smallest id held in `ids`.
pub open spec fn is_min_id(ids: Map<i64, String>, m: i64) -> bool {
    ids.contains_key(m) && forall|k: i64| #[trigger] ids.contains_key(k) ==> m <= k
}

/// `ids` without the entries that hold `addr`.
pub open spec fn drop_addr(ids: Map<i64, String>, addr: Seq<char>) -> Map<i64, String> {
    Map::new(|k: i64| ids.contains_key(k) && ids[k]@ != addr, |k: i64| ids[k])
}

/// `ids` without the entries that hold `addr` under an id other than `keep`.
pub open spec fn without_addr(ids: Map<i64, String>, keep: i64, addr: Seq<char>) -> Map<i64, String> {
    Map::new(|k: i64| ids.contains_key(k) && !(k != keep && ids[k]@ == addr), |k: i64| ids[k])
}

} // verus!
