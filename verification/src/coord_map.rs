//! A sparse map from chunk coordinates to owned values, backed by parallel
//! vectors with pairwise-distinct keys in insertion order. Its view is a
//! mathematical `Map`, which every operation's contract is stated over.

use crate::coords::ChunkCoords;
use vstd::pervasive::VecAdditionalExecFns;
use vstd::prelude::*;

verus! {

/// Index of the occurrence of `k` in `keys`, or -1 when absent; scans from
/// the back, which is the occurrence when keys are distinct.
pub open spec fn find_key(keys: Seq<ChunkCoords>, k: ChunkCoords) -> int
    decreases keys.len(),
{
    if keys.len() == 0 {
        -1
    } else if keys.last() == k {
        keys.len() - 1
    } else {
        find_key(keys.drop_last(), k)
    }
}

/// No coordinate occurs twice.
pub open spec fn distinct_keys(keys: Seq<ChunkCoords>) -> bool {
    forall|i: int, j: int| 0 <= i < j < keys.len() ==> #[trigger] keys[i] != #[trigger] keys[j]
}

pub proof fn lemma_find_range(keys: Seq<ChunkCoords>, k: ChunkCoords)
    ensures
        -1 <= find_key(keys, k) < keys.len(),
    decreases keys.len(),
{
    if keys.len() > 0 && keys.last() != k {
        lemma_find_range(keys.drop_last(), k);
    }
}

pub proof fn lemma_find_some(keys: Seq<ChunkCoords>, k: ChunkCoords)
    requires
        find_key(keys, k) >= 0,
    ensures
        find_key(keys, k) < keys.len(),
        keys[find_key(keys, k)] == k,
    decreases keys.len(),
{
    if keys.len() > 0 && keys.last() != k {
        lemma_find_some(keys.drop_last(), k);
    }
}

pub proof fn lemma_find_none(keys: Seq<ChunkCoords>, k: ChunkCoords)
    ensures
        find_key(keys, k) == -1 <==> (forall|i: int|
            0 <= i < keys.len() ==> #[trigger] keys[i] != k),
    decreases keys.len(),
{
    if keys.len() > 0 {
        lemma_find_none(keys.drop_last(), k);
        if find_key(keys, k) == -1 {
            assert(forall|i: int|
                0 <= i < keys.len() - 1 ==> #[trigger] keys[i] == keys.drop_last()[i]);
        }
    }
}

/// With distinct keys, any position holding `k` is the found position.
pub proof fn lemma_find_position(keys: Seq<ChunkCoords>, k: ChunkCoords, i: int)
    requires
        distinct_keys(keys),
        0 <= i < keys.len(),
        keys[i] == k,
    ensures
        find_key(keys, k) == i,
{
    lemma_find_range(keys, k);
    lemma_find_none(keys, k);
    assert(!(keys[i] != k));
    lemma_find_some(keys, k);
}

/// Whether the vector holds the coordinate.
pub fn contains_coord(v: &Vec<ChunkCoords>, c: ChunkCoords) -> (r: bool)
    ensures
        r == v@.contains(c),
{
    let mut i: usize = 0;
    while i < v.len()
        invariant
            i <= v@.len(),
            forall|j: int| 0 <= j < i ==> #[trigger] v@[j] != c,
        decreases v@.len() - i,
    {
        if v[i] == c {
            return true;
        }
        i += 1;
    }
    false
}

/// A sparse map from chunk coordinates to `V`.
pub struct CoordMap<V> {
    pub keys: Vec<ChunkCoords>,
    pub vals: Vec<V>,
}

impl<V> CoordMap<V> {
    pub open spec fn wf(self) -> bool {
        &&& self.keys@.len() == self.vals@.len()
        &&& distinct_keys(self.keys@)
    }

    pub open spec fn view(self) -> Map<ChunkCoords, V> {
        Map::new(
            |k: ChunkCoords| find_key(self.keys@, k) >= 0,
            |k: ChunkCoords| self.vals@[find_key(self.keys@, k)],
        )
    }

    /// The map's domain and values, element by element: a coordinate is
    /// present exactly when some slot holds it, and its value is that slot's.
    pub proof fn lemma_view_char(self, k: ChunkCoords)
        requires
            self.wf(),
        ensures
            self@.dom().contains(k) <==> (exists|i: int|
                0 <= i < self.keys@.len() && self.keys@[i] == k),
            forall|i: int|
                0 <= i < self.keys@.len() && self.keys@[i] == k ==> self@[k] == self.vals@[i],
    {
        lemma_find_range(self.keys@, k);
        lemma_find_none(self.keys@, k);
        if find_key(self.keys@, k) >= 0 {
            lemma_find_some(self.keys@, k);
        }
        assert forall|i: int|
            0 <= i < self.keys@.len() && self.keys@[i] == k implies self@[k] == self.vals@[i] by {
            lemma_find_position(self.keys@, k, i);
        }
    }

    pub fn new() -> (r: CoordMap<V>)
        ensures
            r.wf(),
            r@ =~= Map::<ChunkCoords, V>::empty(),
            r.keys@.len() == 0,
    {
        let r = CoordMap { keys: Vec::new(), vals: Vec::new() };
        proof {
            assert forall|k: ChunkCoords| !r@.dom().contains(k) by {
                lemma_find_none(r.keys@, k);
            }
        }
        r
    }

    pub fn len(&self) -> (r: usize)
        requires
            self.wf(),
        ensures
            r == self.keys@.len(),
    {
        self.keys.len()
    }

    /// The coordinate stored in slot `i`; slots enumerate the map in
    /// insertion order.
    pub fn key_at(&self, i: usize) -> (r: ChunkCoords)
        requires
            self.wf(),
            i < self.keys@.len(),
        ensures
            r == self.keys@[i as int],
            self@.dom().contains(r),
            self@[r] == self.vals@[i as int],
    {
        proof {
            self.lemma_view_char(self.keys@[i as int]);
        }
        self.keys[i]
    }

    fn index_of(&self, k: ChunkCoords) -> (r: Option<usize>)
        requires
            self.wf(),
        ensures
            r matches Some(i) ==> i < self.keys@.len() && self.keys@[i as int] == k
                && self@.dom().contains(k),
            r is None ==> !self@.dom().contains(k),
    {
        let mut i: usize = 0;
        while i < self.keys.len()
            invariant
                self.wf(),
                i <= self.keys@.len(),
                forall|j: int| 0 <= j < i ==> #[trigger] self.keys@[j] != k,
            decreases self.keys@.len() - i,
        {
            if self.keys[i] == k {
                proof {
                    self.lemma_view_char(k);
                }
                return Some(i);
            }
            i += 1;
        }
        proof {
            lemma_find_none(self.keys@, k);
        }
        None
    }

    pub fn contains(&self, k: ChunkCoords) -> (r: bool)
        requires
            self.wf(),
        ensures
            r == self@.dom().contains(k),
    {
        self.index_of(k).is_some()
    }

    pub fn get(&self, k: ChunkCoords) -> (r: Option<&V>)
        requires
            self.wf(),
        ensures
            r matches Some(v) ==> self@.dom().contains(k) && *v == self@[k],
            r is None ==> !self@.dom().contains(k),
    {
        match self.index_of(k) {
            Some(i) => {
                proof {
                    self.lemma_view_char(k);
                }
                Some(&self.vals[i])
            }
            None => None,
        }
    }

    /// Binds `k` to `v`, returning the value it replaced, if any.
    pub fn insert(&mut self, k: ChunkCoords, v: V) -> (r: Option<V>)
        requires
            old(self).wf(),
        ensures
            final(self).wf(),
            final(self)@ =~= old(self)@.insert(k, v),
            r matches Some(w) ==> old(self)@.dom().contains(k) && w == old(self)@[k],
            r is None ==> !old(self)@.dom().contains(k),
            !old(self)@.dom().contains(k) ==> final(self).keys@ == old(self).keys@.push(k),
            old(self)@.dom().contains(k) ==> final(self).keys@ == old(self).keys@,
    {
        match self.index_of(k) {
            Some(i) => {
                proof {
                    self.lemma_view_char(k);
                }
                let mut slot = v;
                self.vals.set_and_swap(i, &mut slot);
                let old_v = slot;
                proof {
                    assert(self.vals@ =~= old(self).vals@.update(i as int, v));
                    assert forall|q: ChunkCoords| #[trigger]
                        old(self)@.insert(k, v).dom().contains(q) implies self@.dom().contains(q)
                        && self@[q] == old(self)@.insert(k, v)[q] by {
                        old(self).lemma_view_char(q);
                        self.lemma_view_char(q);
                        if q == k {
                            lemma_find_position(self.keys@, k, i as int);
                        }
                    };
                    assert forall|q: ChunkCoords| #[trigger] self@.dom().contains(q) implies
                        old(self)@.insert(k, v).dom().contains(q) by {
                        old(self).lemma_view_char(q);
                        self.lemma_view_char(q);
                    };
                }
                Some(old_v)
            }
            None => {
                self.keys.push(k);
                self.vals.push(v);
                proof {
                    lemma_find_range(old(self).keys@, k);
                    lemma_find_none(old(self).keys@, k);
                    let n = old(self).keys@.len() as int;
                    assert(distinct_keys(self.keys@)) by {
                        assert forall|a: int, b: int|
                            0 <= a < b < self.keys@.len() implies #[trigger] self.keys@[a]
                            != #[trigger] self.keys@[b] by {
                            if b < n {
                                assert(self.keys@[a] == old(self).keys@[a]);
                                assert(self.keys@[b] == old(self).keys@[b]);
                            } else {
                                assert(self.keys@[b] == k);
                                assert(old(self).keys@[a] != k);
                            }
                        }
                    }
                    assert forall|q: ChunkCoords| #[trigger]
                        old(self)@.insert(k, v).dom().contains(q) implies self@.dom().contains(q)
                        && self@[q] == old(self)@.insert(k, v)[q] by {
                        old(self).lemma_view_char(q);
                        self.lemma_view_char(q);
                        if q == k {
                            assert(self.keys@[n] == k);
                            assert(self.vals@[n] == v);
                        } else {
                            let j = choose|j: int|
                                0 <= j < old(self).keys@.len() && old(self).keys@[j] == q;
                            assert(self.keys@[j] == q);
                            assert(self.vals@[j] == old(self).vals@[j]);
                        }
                    };
                    assert forall|q: ChunkCoords| #[trigger] self@.dom().contains(q) implies
                        old(self)@.insert(k, v).dom().contains(q) by {
                        old(self).lemma_view_char(q);
                        self.lemma_view_char(q);
                        if q != k {
                            let j = choose|j: int|
                                0 <= j < self.keys@.len() && self.keys@[j] == q;
                            assert(old(self).keys@[j] == q);
                        }
                    };
                }
                None
            }
        }
    }

    /// Removes the binding of `k`, returning its value; later slots shift
    /// down, keeping insertion order.
    pub fn remove(&mut self, k: ChunkCoords) -> (r: Option<V>)
        requires
            old(self).wf(),
        ensures
            final(self).wf(),
            final(self)@ =~= old(self)@.remove(k),
            r matches Some(v) ==> old(self)@.dom().contains(k) && v == old(self)@[k],
            r is None ==> !old(self)@.dom().contains(k) && *final(self) == *old(self),
    {
        match self.index_of(k) {
            Some(i) => {
                proof {
                    self.lemma_view_char(k);
                }
                self.keys.remove(i);
                let v = self.vals.remove(i);
                proof {
                    old(self).keys@.remove_ensures(i as int);
                    old(self).vals@.remove_ensures(i as int);
                    assert(distinct_keys(self.keys@)) by {
                        assert forall|a: int, b: int|
                            0 <= a < b < self.keys@.len() implies #[trigger] self.keys@[a]
                            != #[trigger] self.keys@[b] by {
                            let a0 = if a < i { a } else { a + 1 };
                            let b0 = if b < i { b } else { b + 1 };
                            assert(self.keys@[a] == old(self).keys@[a0]);
                            assert(self.keys@[b] == old(self).keys@[b0]);
                        }
                    }
                    assert forall|q: ChunkCoords| #[trigger]
                        old(self)@.remove(k).dom().contains(q) implies self@.dom().contains(q)
                        && self@[q] == old(self)@.remove(k)[q] by {
                        old(self).lemma_view_char(q);
                        self.lemma_view_char(q);
                        let j = choose|j: int|
                            0 <= j < old(self).keys@.len() && old(self).keys@[j] == q;
                        let j1 = if j < i as int { j } else { j - 1 };
                        assert(self.keys@[j1] == old(self).keys@[j]);
                        assert(self.vals@[j1] == old(self).vals@[j]);
                    };
                    assert forall|q: ChunkCoords| #[trigger] self@.dom().contains(q) implies
                        old(self)@.remove(k).dom().contains(q) by {
                        old(self).lemma_view_char(q);
                        self.lemma_view_char(q);
                        let j1 = choose|j1: int|
                            0 <= j1 < self.keys@.len() && self.keys@[j1] == q;
                        let j = if j1 < i as int { j1 } else { j1 + 1 };
                        assert(old(self).keys@[j] == self.keys@[j1]);
                    };
                }
                Some(v)
            }
            None => None,
        }
    }
}

} // verus!
