//! A coordinate-keyed map stored as an association list with distinct keys,
//! viewed abstractly as a `Map` from integer positions to value views. The
//! deliberate list representation keeps every operation, including whole-map
//! rebuilds, deterministic and fully verified.

use vstd::prelude::*;

use crate::coords::loc_of;
use crate::coords::Coord;

verus! {

/// The abstract map an association list stands for.
pub open spec fn assoc_map<W>(s: Seq<((int, int), W)>) -> Map<(int, int), W>
    decreases s.len(),
{
    if s.len() == 0 {
        Map::empty()
    } else {
        assoc_map(s.drop_last()).insert(s.last().0, s.last().1)
    }
}

pub open spec fn assoc_distinct<W>(s: Seq<((int, int), W)>) -> bool {
    forall|i: int, j: int| 0 <= i < j < s.len() ==> (#[trigger] s[i]).0 != (#[trigger] s[j]).0
}

pub proof fn lemma_assoc_contains<W>(s: Seq<((int, int), W)>, k: (int, int))
    ensures
        assoc_map(s).contains_key(k) <==> exists|i: int| 0 <= i < s.len() && (#[trigger] s[i]).0
            == k,
    decreases s.len(),
{
    if s.len() > 0 {
        lemma_assoc_contains(s.drop_last(), k);
        if s.last().0 == k {
            assert(s[s.len() - 1].0 == k);
        } else {
            assert(forall|i: int|
                0 <= i < s.drop_last().len() ==> s.drop_last()[i] == s[i]);
            if assoc_map(s).contains_key(k) {
            } else {
                if exists|i: int| 0 <= i < s.len() && (#[trigger] s[i]).0 == k {
                    let i = choose|i: int| 0 <= i < s.len() && (#[trigger] s[i]).0 == k;
                    assert(i < s.len() - 1);
                    assert(s.drop_last()[i].0 == k);
                }
            }
        }
    }
}

pub proof fn lemma_assoc_index<W>(s: Seq<((int, int), W)>, i: int)
    requires
        assoc_distinct(s),
        0 <= i < s.len(),
    ensures
        assoc_map(s).contains_key(s[i].0),
        assoc_map(s)[s[i].0] == s[i].1,
    decreases s.len(),
{
    if i == s.len() - 1 {
    } else {
        assert(assoc_distinct(s.drop_last())) by {
            assert(forall|x: int, y: int|
                0 <= x < y < s.drop_last().len() ==> (#[trigger] s.drop_last()[x]).0 != (
                #[trigger] s.drop_last()[y]).0);
        }
        assert(s.drop_last()[i] == s[i]);
        lemma_assoc_index(s.drop_last(), i);
        assert(s[i].0 != s.last().0);
    }
}

pub proof fn lemma_assoc_remove<W>(s: Seq<((int, int), W)>, i: int)
    requires
        assoc_distinct(s),
        0 <= i < s.len(),
    ensures
        assoc_map(s.remove(i)) == assoc_map(s).remove(s[i].0),
        assoc_distinct(s.remove(i)),
    decreases s.len(),
{
    let t = s.remove(i);
    assert(assoc_distinct(t)) by {
        assert(forall|x: int|
            0 <= x < t.len() ==> #[trigger] t[x] == (if x < i {
                s[x]
            } else {
                s[x + 1]
            }));
    }
    if i == s.len() - 1 {
        assert(t =~= s.drop_last());
        lemma_assoc_contains(s.drop_last(), s[i].0);
        assert(!assoc_map(s.drop_last()).contains_key(s[i].0)) by {
            if exists|j: int|
                0 <= j < s.drop_last().len() && (#[trigger] s.drop_last()[j]).0 == s[i].0 {
                let j = choose|j: int|
                    0 <= j < s.drop_last().len() && (#[trigger] s.drop_last()[j]).0 == s[i].0;
                assert(s[j].0 == s[i].0);
            }
        }
        assert(assoc_map(s).remove(s[i].0) =~= assoc_map(s.drop_last()));
    } else {
        assert(assoc_distinct(s.drop_last())) by {
            assert(forall|x: int, y: int|
                0 <= x < y < s.drop_last().len() ==> (#[trigger] s.drop_last()[x]).0 != (
                #[trigger] s.drop_last()[y]).0);
        }
        assert(s.drop_last()[i] == s[i]);
        lemma_assoc_remove(s.drop_last(), i);
        assert(t.drop_last() =~= s.drop_last().remove(i));
        assert(t.last() == s.last());
        assert(assoc_map(t) == assoc_map(s.drop_last().remove(i)).insert(s.last().0, s.last().1));
        assert(s[i].0 != s.last().0);
        assert(assoc_map(s.drop_last()).remove(s[i].0).insert(s.last().0, s.last().1)
            =~= assoc_map(s.drop_last()).insert(s.last().0, s.last().1).remove(s[i].0));
    }
}

/// A map from grid coordinates to values, with one entry per coordinate.
pub struct CoordMap<V> {
    pub entries: Vec<(Coord, V)>,
}

pub open spec fn entries_deep<V: DeepView>(s: Seq<(Coord, V)>) -> Seq<((int, int), V::V)> {
    s.map_values(|e: (Coord, V)| (loc_of(e.0), e.1.deep_view()))
}

impl<V: DeepView> View for CoordMap<V> {
    type V = Map<(int, int), V::V>;

    open spec fn view(&self) -> Map<(int, int), V::V> {
        assoc_map(entries_deep(self.entries@))
    }
}

impl<V: DeepView> CoordMap<V> {
    /// Coordinates are pairwise distinct.
    pub open spec fn inv(&self) -> bool {
        forall|i: int, j: int|
            0 <= i < j < self.entries@.len() ==> (#[trigger] self.entries@[i]).0 != (
            #[trigger] self.entries@[j]).0
    }

    pub open spec fn distinct_deep(&self) -> bool {
        assoc_distinct(entries_deep(self.entries@))
    }

    proof fn lemma_inv_deep(&self)
        requires
            self.inv(),
        ensures
            self.distinct_deep(),
    {
        let s = entries_deep(self.entries@);
        assert forall|i: int, j: int| 0 <= i < j < s.len() implies (#[trigger] s[i]).0 != (
        #[trigger] s[j]).0 by {
            assert(s[i].0 == loc_of(self.entries@[i].0));
            assert(s[j].0 == loc_of(self.entries@[j].0));
        }
    }

    pub fn new() -> (r: CoordMap<V>)
        ensures
            r.inv(),
            r@ == Map::<(int, int), V::V>::empty(),
            r.entries@.len() == 0,
    {
        let r = CoordMap { entries: Vec::new() };
        proof {
            assert(entries_deep(r.entries@) =~= Seq::<((int, int), V::V)>::empty());
        }
        r
    }

    pub fn len(&self) -> (r: usize)
        ensures
            r == self.entries@.len(),
    {
        self.entries.len()
    }

    /// Empties the map.
    pub fn clear(&mut self)
        ensures
            final(self).inv(),
            final(self)@ == Map::<(int, int), V::V>::empty(),
            final(self).entries@.len() == 0,
    {
        self.entries.clear();
        proof {
            assert(entries_deep(self.entries@) =~= Seq::<((int, int), V::V)>::empty());
        }
    }

    /// Finds the entry index for a coordinate.
    fn find(&self, c: Coord) -> (r: Option<usize>)
        requires
            self.inv(),
        ensures
            match r {
                Some(i) => i < self.entries@.len() && self.entries@[i as int].0 == c,
                None => forall|i: int|
                    0 <= i < self.entries@.len() ==> (#[trigger] self.entries@[i]).0 != c,
            },
    {
        let n = self.entries.len();
        let mut i: usize = 0;
        while i < n
            invariant
                n == self.entries@.len(),
                i <= n,
                forall|k: int| 0 <= k < i ==> (#[trigger] self.entries@[k]).0 != c,
            decreases n - i,
        {
            if self.entries[i].0.x == c.x && self.entries[i].0.y == c.y {
                return Some(i);
            }
            i += 1;
        }
        None
    }

    /// Looks a coordinate up.
    pub fn get(&self, c: Coord) -> (r: Option<&V>)
        requires
            self.inv(),
        ensures
            match r {
                Some(v) => self@.contains_key(loc_of(c)) && self@[loc_of(c)] == v.deep_view(),
                None => !self@.contains_key(loc_of(c)),
            },
    {
        proof {
            self.lemma_inv_deep();
        }
        match self.find(c) {
            Some(i) => {
                proof {
                    let s = entries_deep(self.entries@);
                    assert(s[i as int].0 == loc_of(c));
                    assert(s[i as int].1 == self.entries@[i as int].1.deep_view());
                    lemma_assoc_index(s, i as int);
                }
                Some(&self.entries[i].1)
            },
            None => {
                proof {
                    let s = entries_deep(self.entries@);
                    lemma_assoc_contains(s, loc_of(c));
                    if exists|i: int| 0 <= i < s.len() && (#[trigger] s[i]).0 == loc_of(c) {
                        let i = choose|i: int| 0 <= i < s.len() && (#[trigger] s[i]).0 == loc_of(c);
                        assert(s[i].0 == loc_of(self.entries@[i].0));
                        assert(self.entries@[i].0 == c);
                    }
                }
                None
            },
        }
    }

    /// Removes a coordinate's entry, if present.
    pub fn remove(&mut self, c: Coord) -> (r: Option<V>)
        requires
            old(self).inv(),
        ensures
            final(self).inv(),
            match r {
                Some(v) => {
                    &&& old(self)@.contains_key(loc_of(c))
                    &&& v.deep_view() == old(self)@[loc_of(c)]
                    &&& final(self)@ == old(self)@.remove(loc_of(c))
                },
                None => {
                    &&& !old(self)@.contains_key(loc_of(c))
                    &&& final(self)@ == old(self)@
                    &&& final(self).entries@ == old(self).entries@
                },
            },
    {
        proof {
            self.lemma_inv_deep();
        }
        match self.find(c) {
            Some(i) => {
                proof {
                    let s = entries_deep(self.entries@);
                    assert(s[i as int].0 == loc_of(c));
                    lemma_assoc_index(s, i as int);
                    lemma_assoc_remove(s, i as int);
                }
                let ghost olds = self.entries@;
                let e = self.entries.remove(i);
                proof {
                    assert(entries_deep(olds.remove(i as int)) =~= entries_deep(olds).remove(
                        i as int,
                    ));
                    assert(forall|x: int, y: int|
                        0 <= x < y < self.entries@.len() ==> (#[trigger] self.entries@[x]).0 != (
                        #[trigger] self.entries@[y]).0) by {
                        assert(forall|x: int|
                            0 <= x < self.entries@.len() ==> #[trigger] self.entries@[x] == (if x
                                < i {
                                olds[x]
                            } else {
                                olds[x + 1]
                            }));
                    }
                    assert(e.1.deep_view() == old(self)@[loc_of(c)]);
                }
                Some(e.1)
            },
            None => {
                proof {
                    let s = entries_deep(self.entries@);
                    lemma_assoc_contains(s, loc_of(c));
                    if exists|i: int| 0 <= i < s.len() && (#[trigger] s[i]).0 == loc_of(c) {
                        let i = choose|i: int| 0 <= i < s.len() && (#[trigger] s[i]).0 == loc_of(c);
                        assert(s[i].0 == loc_of(self.entries@[i].0));
                        assert(self.entries@[i].0 == c);
                    }
                }
                None
            },
        }
    }

    /// Inserts or replaces the value at a coordinate.
    pub fn insert(&mut self, c: Coord, v: V)
        requires
            old(self).inv(),
        ensures
            final(self).inv(),
            final(self)@ == old(self)@.insert(loc_of(c), v.deep_view()),
    {
        let _ = self.remove(c);
        let ghost mids = self.entries@;
        let ghost midm = self@;
        self.entries.push((c, v));
        proof {
            let t = entries_deep(mids.push((c, v)));
            assert(t =~= entries_deep(mids).push((loc_of(c), v.deep_view())));
            assert(t.drop_last() =~= entries_deep(mids));
            assert(t.last() == (loc_of(c), v.deep_view()));
            assert(assoc_map(t) == assoc_map(entries_deep(mids)).insert(
                loc_of(c),
                v.deep_view(),
            ));
            assert(self@ == midm.insert(loc_of(c), v.deep_view()));
            // the pushed coordinate is fresh
            assert forall|x: int, y: int|
                0 <= x < y < self.entries@.len() implies (#[trigger] self.entries@[x]).0 != (
            #[trigger] self.entries@[y]).0 by {
                if y == self.entries@.len() - 1 {
                    assert(self.entries@[x] == mids[x]);
                    if self.entries@[x].0 == c {
                        let s = entries_deep(mids);
                        lemma_assoc_contains(s, loc_of(c));
                        assert(s[x].0 == loc_of(c));
                        assert(false);
                    }
                } else {
                    assert(self.entries@[x] == mids[x]);
                    assert(self.entries@[y] == mids[y]);
                }
            }
            assert(old(self)@.remove(loc_of(c)).insert(loc_of(c), v.deep_view()) =~= old(
                self,
            )@.insert(loc_of(c), v.deep_view()));
        }
    }
}

} // verus!
