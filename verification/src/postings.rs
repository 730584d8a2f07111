//! For a list of keys, where each key stands in it.

use std::collections::HashMap;
use vstd::prelude::*;

verus! {

broadcast use vstd::std_specs::hash::group_hash_axioms;

/// The indices at which `k` stands in `keys`, ascending.
pub open spec fn positions(keys: Seq<i64>, k: i64) -> Seq<int>
    decreases keys.len(),
{
    if keys.len() == 0 {
        Seq::empty()
    } else {
        let b = positions(keys.drop_last(), k);
        if keys.last() == k {
            b.push(keys.len() - 1)
        } else {
            b
        }
    }
}

/// The last index at which `k` stands in `keys`.
pub open spec fn last_position(keys: Seq<i64>, k: i64) -> Option<int> {
    let p = positions(keys, k);
    if p.len() == 0 {
        None
    } else {
        Some(p.last())
    }
}

/// Law: the positions of a key are exactly the indices at which it stands, in
/// ascending order.
pub proof fn positions_are_indices(keys: Seq<i64>, k: i64)
    ensures
        forall|j: int|
            0 <= j < positions(keys, k).len() ==> 0 <= #[trigger] positions(keys, k)[j] < keys.len() && keys[positions(
                keys,
                k,
            )[j]] == k,
        forall|i: int| 0 <= i < keys.len() && keys[i] == k ==> #[trigger] positions(keys, k).contains(i),
        forall|i: int, j: int|
            0 <= i < j < positions(keys, k).len() ==> #[trigger] positions(keys, k)[i] < #[trigger] positions(
                keys,
                k,
            )[j],
        positions(keys, k).len() <= keys.len(),
    decreases keys.len(),
{
    if keys.len() > 0 {
        let f = keys.drop_last();
        positions_are_indices(f, k);
        let p = positions(keys, k);
        let b = positions(f, k);
        assert forall|i: int| 0 <= i < keys.len() && keys[i] == k implies #[trigger] p.contains(i) by {
            if i == keys.len() - 1 {
                assert(p[p.len() - 1] == i);
            } else {
                assert(f[i] == k);
                assert(b.contains(i));
                let j = b.index_of(i);
                assert(p[j] == i);
            }
        }
        assert forall|j: int| 0 <= j < p.len() implies 0 <= #[trigger] p[j] < keys.len() && keys[p[j]] == k by {
            if j < b.len() {
                assert(p[j] == b[j]);
            }
        }
        assert forall|i: int, j: int| 0 <= i < j < p.len() implies #[trigger] p[i] < #[trigger] p[j] by {
            if j < b.len() {
                assert(b[i] < b[j]);
            } else {
                assert(p[i] == b[i]);
            }
        }
    }
}

pub open spec fn as_ints(s: Seq<usize>) -> Seq<int> {
    s.map_values(|x: usize| x as int)
}

/// Where each key of a list stands in it.
pub struct Postings {
    slots: HashMap<i64, usize>,
    lists: Vec<Vec<usize>>,
    none: Vec<usize>,
    keys: Ghost<Seq<i64>>,
}

impl View for Postings {
    type V = Seq<i64>;

    /// The keys.
    closed spec fn view(&self) -> Seq<i64> {
        self.keys@
    }
}

impl Postings {
    pub closed spec fn wf(&self) -> bool {
        slots_agree(self.slots@, self.lists@, self.keys@) && self.none@.len() == 0
    }

    /// Find where each key stands.
    pub fn build(keys: &Vec<i64>) -> (r: Self)
        ensures
            r.wf(),
            r@ == keys@,
    {
        let mut slots: HashMap<i64, usize> = HashMap::new();
        let mut lists: Vec<Vec<usize>> = Vec::new();
        let mut i: usize = 0;
        assert(keys@.take(0) =~= Seq::<i64>::empty());
        while i < keys.len()
            invariant
                i <= keys@.len(),
                slots_agree(slots@, lists@, keys@.take(i as int)),
            decreases keys@.len() - i,
        {
            let k = keys[i];
            let ghost s0 = slots@;
            let ghost l0 = lists@;
            let ghost t0 = keys@.take(i as int);
            let ghost t1 = keys@.take(i + 1);
            assert(t1.drop_last() =~= t0);
            assert(t1.last() == k);
            let at: Option<usize> = match slots.get(&k) {
                Some(s) => Some(*s),
                None => None,
            };
            match at {
                Some(s) => {
                    lists[s].push(i);
                    proof {
                        assert(lists@.len() == l0.len());
                        assert(as_ints(lists@[s as int]@) =~= positions(t1, k));
                        assert forall|q: i64| #[trigger] slots@.contains_key(q) implies slots@[q] < lists@.len()
                            && as_ints(lists@[slots@[q] as int]@) == positions(t1, q) by {
                            if q != k {
                                assert(slots@[q] != s);
                                assert(lists@[slots@[q] as int] == l0[slots@[q] as int]);
                            }
                        }
                    }
                },
                None => {
                    let mut one: Vec<usize> = Vec::new();
                    one.push(i);
                    let n = lists.len();
                    lists.push(one);
                    slots.insert(k, n);
                    proof {
                        assert(positions(t0, k).len() == 0);
                        assert(as_ints(one@) =~= positions(t1, k));
                        assert forall|q: i64| #[trigger] slots@.contains_key(q) implies slots@[q] < lists@.len()
                            && as_ints(lists@[slots@[q] as int]@) == positions(t1, q) by {
                            if q != k {
                                assert(s0.contains_key(q));
                                assert(lists@[slots@[q] as int] == l0[slots@[q] as int]);
                            }
                        }
                        assert forall|q: i64, u: i64|
                            #[trigger] slots@.contains_key(q) && #[trigger] slots@.contains_key(u) && q
                                != u implies slots@[q] != slots@[u] by {
                            if q != k {
                                assert(s0.contains_key(q));
                            }
                            if u != k {
                                assert(s0.contains_key(u));
                            }
                        }
                    }
                },
            }
            i += 1;
        }
        assert(keys@.take(i as int) =~= keys@);
        Postings { slots, lists, none: Vec::new(), keys: Ghost(keys@) }
    }

    /// Where a key stands.
    pub fn get(&self, k: i64) -> (r: &Vec<usize>)
        requires
            self.wf(),
        ensures
            as_ints(r@) == positions(self@, k),
            forall|j: int| 0 <= j < r@.len() ==> #[trigger] r@[j] < self@.len() && self@[r@[j] as int] == k,
    {
        proof {
            positions_are_indices(self@, k);
        }
        let r = match self.slots.get(&k) {
            Some(s) => &self.lists[*s],
            None => &self.none,
        };
        proof {
            if !self.slots@.contains_key(k) {
                assert(as_ints(r@) =~= positions(self@, k));
            }
            assert forall|j: int| 0 <= j < r@.len() implies #[trigger] r@[j] < self@.len() && self@[r@[j] as int]
                == k by {
                assert(as_ints(r@)[j] == r@[j]);
                assert(positions(self@, k)[j] == r@[j]);
            }
        }
        r
    }

    /// Where a key stands last.
    pub fn last(&self, k: i64) -> (r: Option<usize>)
        requires
            self.wf(),
        ensures
            match r {
                Some(i) => last_position(self@, k) == Some(i as int) && i < self@.len() && self@[i as int] == k,
                None => last_position(self@, k) is None,
            },
    {
        let p = self.get(k);
        if p.len() == 0 {
            None
        } else {
            assert(as_ints(p@).last() == p@.last());
            Some(p[p.len() - 1])
        }
    }
}

/// Each key that occurs has a list of its own, which holds its positions.
spec fn slots_agree(slots: Map<i64, usize>, lists: Seq<Vec<usize>>, keys: Seq<i64>) -> bool {
    &&& forall|k: i64|
        #[trigger] slots.contains_key(k) ==> slots[k] < lists.len() && as_ints(lists[slots[k] as int]@) == positions(
            keys,
            k,
        )
    &&& forall|k: i64| !#[trigger] slots.contains_key(k) ==> positions(keys, k).len() == 0
    &&& forall|k: i64, u: i64|
        #[trigger] slots.contains_key(k) && #[trigger] slots.contains_key(u) && k != u ==> slots[k] != slots[u]
}

} // verus!
