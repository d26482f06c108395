use vstd::prelude::*;

use crate::strmap::StrMap;

verus! {

/// A two-level string map whose inner maps are all well formed.
pub open spec fn nested_wf<V>(m: &StrMap<StrMap<V>>) -> bool {
    m.wf() && forall|k: Seq<char>| #[trigger] m@.contains_key(k) ==> m@[k].wf()
}

/// The two-level map as a map of maps.
pub open spec fn nested_view<V>(m: &StrMap<StrMap<V>>) -> Map<Seq<char>, Map<Seq<char>, V>> {
    Map::new(|k: Seq<char>| m@.contains_key(k), |k: Seq<char>| m@[k]@)
}

/// The inner map under `k`, or the empty map.
pub open spec fn row_or_empty<V>(t: Map<Seq<char>, Map<Seq<char>, V>>, k: Seq<char>) -> Map<Seq<char>, V> {
    if t.contains_key(k) {
        t[k]
    } else {
        Map::empty()
    }
}

/// `t` with `v` stored under `k1`, then `k2`.
pub open spec fn put2<V>(t: Map<Seq<char>, Map<Seq<char>, V>>, k1: Seq<char>, k2: Seq<char>, v: V) -> Map<
    Seq<char>,
    Map<Seq<char>, V>,
> {
    t.insert(k1, row_or_empty(t, k1).insert(k2, v))
}

/// `t` without the entry under `k1`, then `k2`; an inner map left empty stays.
pub open spec fn del2<V>(t: Map<Seq<char>, Map<Seq<char>, V>>, k1: Seq<char>, k2: Seq<char>) -> Map<
    Seq<char>,
    Map<Seq<char>, V>,
> {
    if t.contains_key(k1) {
        t.insert(k1, t[k1].remove(k2))
    } else {
        t
    }
}

/// The value under `k1`, then `k2`.
pub fn nested_get<'a, V>(m: &'a StrMap<StrMap<V>>, k1: &String, k2: &String) -> (r: Option<&'a V>)
    requires
        nested_wf(m),
    ensures
        match r {
            Some(v) => nested_view(m).contains_key(k1@) && nested_view(m)[k1@].contains_key(k2@)
                && *v == nested_view(m)[k1@][k2@],
            None => !(nested_view(m).contains_key(k1@) && nested_view(m)[k1@].contains_key(k2@)),
        },
{
    match m.get(k1) {
        Some(inner) => inner.get(k2),
        None => None,
    }
}

/// Stores `v` under `k1`, then `k2`.
pub fn nested_insert<V>(m: &mut StrMap<StrMap<V>>, k1: String, k2: String, v: V)
    requires
        nested_wf(old(m)),
    ensures
        nested_wf(final(m)),
        nested_view(final(m)) == put2(nested_view(old(m)), k1@, k2@, v),
{
    let ghost t0 = nested_view(m);
    let mut inner = match m.remove(&k1) {
        Some(inner) => inner,
        None => StrMap::new(),
    };
    inner.insert(k2, v);
    let ghost k1v = k1@;
    m.insert(k1, inner);
    assert(nested_view(m) =~= put2(t0, k1v, k2@, v));
}

/// Removes what stands under `k1`, then `k2`, and hands it back.
pub fn nested_remove<V>(m: &mut StrMap<StrMap<V>>, k1: &String, k2: &String) -> (r: Option<V>)
    requires
        nested_wf(old(m)),
    ensures
        nested_wf(final(m)),
        nested_view(final(m)) == del2(nested_view(old(m)), k1@, k2@),
        match r {
            Some(v) => nested_view(old(m)).contains_key(k1@) && nested_view(old(m))[k1@].contains_key(k2@)
                && v == nested_view(old(m))[k1@][k2@],
            None => !(nested_view(old(m)).contains_key(k1@) && nested_view(old(m))[k1@].contains_key(k2@)),
        },
{
    let ghost t0 = nested_view(m);
    match m.remove(k1) {
        Some(mut inner) => {
            let r = inner.remove(k2);
            m.insert(k1.clone(), inner);
            assert(nested_view(m) =~= del2(t0, k1@, k2@));
            r
        },
        None => {
            assert(nested_view(m) =~= del2(t0, k1@, k2@));
            None
        },
    }
}

/// `t` with key `k` taken out of every inner map, and the inner maps that this empties dropped.
pub open spec fn strip2<V>(t: Map<Seq<char>, Map<Seq<char>, V>>, k: Seq<char>) -> Map<Seq<char>, Map<Seq<char>, V>> {
    Map::new(
        |r: Seq<char>| t.contains_key(r) && t[r].remove(k) != Map::<Seq<char>, V>::empty(),
        |r: Seq<char>| t[r].remove(k),
    )
}

/// One of the first `i` keys of `ks` is `r`.
pub open spec fn seen(ks: Seq<String>, i: int, r: Seq<char>) -> bool {
    exists|j: int| 0 <= j < i && ks[j]@ == r
}

/// Takes `k2` out of every inner map, and drops the inner maps that this empties.
pub fn nested_remove_everywhere<V>(m: &mut StrMap<StrMap<V>>, k2: &String)
    requires
        nested_wf(old(m)),
    ensures
        nested_wf(final(m)),
        nested_view(final(m)) == strip2(nested_view(old(m)), k2@),
{
    let ghost t0 = nested_view(m);
    let ks = m.keys();
    let ghost ks0 = ks@;
    let mut i: usize = 0;
    while i < ks.len()
        invariant
            nested_wf(m),
            nested_wf(old(m)),
            ks@ == ks0,
            ks0.len() == old(m).entries@.len(),
            forall|j: int| 0 <= j < ks0.len() ==> #[trigger] ks0[j] == old(m).entries@[j].0,
            i <= ks0.len(),
            t0 == nested_view(old(m)),
            nested_view(m) == Map::new(
                |r: Seq<char>| t0.contains_key(r) && (seen(ks0, i as int, r) ==> t0[r].remove(k2@)
                    != Map::<Seq<char>, V>::empty()),
                |r: Seq<char>| if seen(ks0, i as int, r) { t0[r].remove(k2@) } else { t0[r] },
            ),
        decreases ks0.len() - i,
    {
        let ghost before = nested_view(m);
        let k = &ks[i];
        proof {
            old(m).lemma_entry(i as int);
            assert forall|j: int| 0 <= j < i implies ks0[j]@ != k@ by {
                assert(old(m).entries@[j].0@ != old(m).entries@[i as int].0@);
            }
        }
        assert(t0.contains_key(k@));
        assert(!seen(ks0, i as int, k@));
        assert(before.contains_key(k@) && before[k@] == t0[k@]);
        match m.remove(k) {
            Some(mut inner) => {
                inner.remove(k2);
                if !inner.is_empty() {
                    m.insert(k.clone(), inner);
                    assert(nested_view(m) =~= before.insert(k@, t0[k@].remove(k2@)));
                } else {
                    assert(nested_view(m) =~= before.remove(k@));
                }
            },
            None => {},
        }
        i = i + 1;
        proof {
            let target = Map::new(
                |r: Seq<char>| t0.contains_key(r) && (seen(ks0, i as int, r) ==> t0[r].remove(k2@)
                    != Map::<Seq<char>, V>::empty()),
                |r: Seq<char>| if seen(ks0, i as int, r) { t0[r].remove(k2@) } else { t0[r] },
            );
            assert forall|r: Seq<char>| r != k@ implies #[trigger] seen(ks0, i as int, r) == seen(ks0, i - 1, r) by {
                if seen(ks0, i as int, r) {
                    let j = choose|j: int| 0 <= j < i && ks0[j]@ == r;
                    assert(j != i - 1);
                }
            }
            assert(ks0[i - 1]@ == k@);
            assert(seen(ks0, i as int, k@));
            assert(nested_view(m) =~= target);
        }
    }
    proof {
        assert forall|r: Seq<char>| #[trigger] t0.contains_key(r) implies exists|j: int| 0 <= j < ks0.len() && ks0[j]@ == r by {
            old(m).lemma_key(r);
            let j = choose|j: int| old(m).has_key_at(r, j);
            assert(ks0[j]@ == r);
        }
        assert(nested_view(m) =~= strip2(t0, k2@));
    }
}

} // verus!
