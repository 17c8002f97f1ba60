//! A map keyed by address that keeps its keys in increasing order, so that
//! the entry at or before an address is found by bisection and neighbours
//! are reached by position.

use vstd::prelude::*;

verus! {

/// Whether every element of `s` is smaller than all that follow it.
pub open spec fn strictly_increasing(s: Seq<u64>) -> bool {
    forall|i: int, j: int| 0 <= i < j < s.len() ==> s[i] < s[j]
}

/// The position of the largest element of `s` that is at most `k`, or `-1`
/// when every element is larger. Meant for increasing sequences.
pub open spec fn floor_position(s: Seq<u64>, k: u64) -> int
    decreases s.len(),
{
    if s.len() == 0 {
        -1
    } else if s.last() <= k {
        s.len() - 1
    } else {
        floor_position(s.drop_last(), k)
    }
}

/// What `floor_position` returns on an increasing sequence: the one position
/// whose element is at most `k` while the next one, if any, is larger.
pub proof fn lemma_floor_position(s: Seq<u64>, k: u64)
    requires
        strictly_increasing(s),
    ensures
        -1 <= floor_position(s, k) < s.len(),
        forall|i: int| 0 <= i <= floor_position(s, k) ==> s[i] <= k,
        forall|i: int| floor_position(s, k) < i < s.len() ==> s[i] > k,
    decreases s.len(),
{
    if s.len() > 0 {
        let t = s.drop_last();
        assert(strictly_increasing(t));
        lemma_floor_position(t, k);
        if s.last() <= k {
            assert forall|i: int| 0 <= i <= s.len() - 1 implies s[i] <= k by {
                if i < s.len() - 1 {
                    assert(s[i] < s[s.len() - 1]);
                }
            }
        } else {
            assert forall|i: int| floor_position(s, k) < i < s.len() implies s[i] > k by {
                if i < s.len() - 1 {
                    assert(t[i] == s[i]);
                }
            }
            assert forall|i: int| 0 <= i <= floor_position(s, k) implies s[i] <= k by {
                assert(t[i] == s[i]);
            }
        }
    }
}

/// A position that meets the two conditions of the floor is the floor.
pub proof fn lemma_floor_position_unique(s: Seq<u64>, k: u64, p: int)
    requires
        strictly_increasing(s),
        -1 <= p < s.len(),
        p >= 0 ==> s[p] <= k,
        p + 1 < s.len() ==> s[p + 1] > k,
    ensures
        floor_position(s, k) == p,
{
    lemma_floor_position(s, k);
    let q = floor_position(s, k);
    if q < p {
        assert(s[p] > k);
    } else if q > p {
        if q > p + 1 {
            assert(s[p + 1] < s[q]);
        }
        assert(s[q] <= k);
    }
}

/// Whether `k` is the largest address of `m` that is at most `addr`.
pub open spec fn is_floor_key<V>(m: Map<u64, V>, addr: u64, k: u64) -> bool {
    &&& m.dom().contains(k)
    &&& k <= addr
    &&& forall|j: u64| m.dom().contains(j) && j <= addr ==> j <= k
}

/// The largest address of `m` that is at most `addr`, if there is one.
pub open spec fn floor_key<V>(m: Map<u64, V>, addr: u64) -> Option<u64> {
    if exists|k: u64| is_floor_key(m, addr, k) {
        Some(choose|k: u64| is_floor_key(m, addr, k))
    } else {
        None
    }
}

/// The floor is the one address that meets its definition.
pub proof fn lemma_floor_key_unique<V>(m: Map<u64, V>, addr: u64, k: u64)
    requires
        is_floor_key(m, addr, k),
    ensures
        floor_key(m, addr) == Some(k),
{
    let c = choose|c: u64| is_floor_key(m, addr, c);
    assert(c <= k && k <= c);
}

/// Two maps with the same addresses have the same floors.
pub proof fn lemma_floor_key_same<V, W>(m: Map<u64, V>, n: Map<u64, W>, addr: u64)
    requires
        m.dom() == n.dom(),
    ensures
        floor_key(m, addr) == floor_key(n, addr),
{
    assert forall|k: u64| is_floor_key(m, addr, k) == is_floor_key(n, addr, k) by {}
    if exists|k: u64| is_floor_key(m, addr, k) {
        let k = choose|k: u64| is_floor_key(m, addr, k);
        assert(is_floor_key(n, addr, k));
        lemma_floor_key_unique(n, addr, k);
    } else {
        assert forall|k: u64| !is_floor_key(n, addr, k) by {
            assert(!is_floor_key(m, addr, k));
        }
    }
}

/// Where no address of `m` is at most `addr`, there is no floor.
pub proof fn lemma_floor_key_none<V>(m: Map<u64, V>, addr: u64)
    requires
        forall|j: u64| m.dom().contains(j) ==> j > addr,
    ensures
        floor_key(m, addr) is None,
{
}

/// A map from addresses to values, held as two parallel vectors in
/// increasing order of address.
pub struct AddrMap<V> {
    keys: Vec<u64>,
    values: Vec<V>,
}

impl<V> AddrMap<V> {
    /// The addresses of the map, in increasing order.
    pub closed spec fn spec_keys(&self) -> Seq<u64> {
        self.keys@
    }

    /// The values of the map, each at the position of its address.
    pub closed spec fn spec_values(&self) -> Seq<V> {
        self.values@
    }

    /// The invariant of the type: one value for each address, and the
    /// addresses strictly increasing.
    pub open spec fn wf(&self) -> bool {
        &&& self.spec_keys().len() == self.spec_values().len()
        &&& strictly_increasing(self.spec_keys())
    }

    /// The map as a mathematical map.
    pub open spec fn view(&self) -> Map<u64, V> {
        Map::new(
            |k: u64| self.spec_keys().contains(k),
            |k: u64| self.spec_values()[self.spec_keys().index_of(k)],
        )
    }

    /// In a well-formed map the value at a position belongs to the address at
    /// that position.
    pub proof fn lemma_view_at(&self, i: int)
        requires
            self.wf(),
            0 <= i < self.spec_keys().len(),
        ensures
            self@.dom().contains(self.spec_keys()[i]),
            self@[self.spec_keys()[i]] == self.spec_values()[i],
    {
        let k = self.spec_keys()[i];
        assert(self.spec_keys().contains(k));
        let j = self.spec_keys().index_of(k);
        assert(0 <= j < self.spec_keys().len() && self.spec_keys()[j] == k);
        if j < i {
            assert(self.spec_keys()[j] < self.spec_keys()[i]);
        } else if i < j {
            assert(self.spec_keys()[i] < self.spec_keys()[j]);
        }
    }

    /// The floor among the addresses of the map is the address at the floor
    /// position of the key sequence.
    pub proof fn lemma_floor_key(&self, k: u64)
        requires
            self.wf(),
        ensures
            floor_position(self.spec_keys(), k) >= 0 ==> floor_key(self@, k) == Some(
                self.spec_keys()[floor_position(self.spec_keys(), k)],
            ),
            floor_position(self.spec_keys(), k) < 0 ==> floor_key(self@, k) is None,
    {
        let keys = self.spec_keys();
        lemma_floor_position(keys, k);
        let p = floor_position(keys, k);
        if p >= 0 {
            assert(keys.contains(keys[p]));
            assert forall|j: u64| self@.dom().contains(j) && j <= k implies j <= keys[p] by {
                let q = keys.index_of(j);
                if q > p {
                    assert(keys[q] > k);
                } else if q < p {
                    assert(keys[q] < keys[p]);
                }
            }
            lemma_floor_key_unique(self@, k, keys[p]);
        } else {
            assert forall|j: u64| self@.dom().contains(j) implies j > k by {
                let q = keys.index_of(j);
                assert(keys[q] > k);
            }
            lemma_floor_key_none(self@, k);
        }
    }

    /// An empty map.
    pub fn new() -> (m: Self)
        ensures
            m.wf(),
            m.spec_keys() == Seq::<u64>::empty(),
            m.spec_values() == Seq::<V>::empty(),
            m@ == Map::<u64, V>::empty(),
    {
        let m = AddrMap { keys: Vec::new(), values: Vec::new() };
        assert(m@ =~= Map::<u64, V>::empty());
        m
    }

    /// The number of entries.
    pub fn len(&self) -> (n: usize)
        requires
            self.wf(),
        ensures
            n == self.spec_keys().len(),
    {
        self.keys.len()
    }

    /// The address at position `i`.
    pub fn key_at(&self, i: usize) -> (k: u64)
        requires
            self.wf(),
            i < self.spec_keys().len(),
        ensures
            k == self.spec_keys()[i as int],
    {
        self.keys[i]
    }

    /// The value at position `i`.
    pub fn value_at(&self, i: usize) -> (v: &V)
        requires
            self.wf(),
            i < self.spec_keys().len(),
        ensures
            *v == self.spec_values()[i as int],
    {
        &self.values[i]
    }

    /// The position of the largest address that is at most `k`.
    pub fn floor_index(&self, k: u64) -> (r: Option<usize>)
        requires
            self.wf(),
        ensures
            match r {
                Some(i) => i == floor_position(self.spec_keys(), k) && floor_key(self@, k) == Some(
                    self.spec_keys()[i as int],
                ),
                None => floor_position(self.spec_keys(), k) == -1 && floor_key(self@, k) is None,
            },
    {
        let mut lo: usize = 0;
        let mut hi: usize = self.keys.len();
        while lo < hi
            invariant
                lo <= hi <= self.keys.len(),
                strictly_increasing(self.keys@),
                forall|i: int| 0 <= i < lo ==> self.keys@[i] <= k,
                forall|i: int| hi <= i < self.keys.len() ==> self.keys@[i] > k,
            decreases hi - lo,
        {
            let mid: usize = lo + (hi - lo) / 2;
            if self.keys[mid] <= k {
                assert forall|i: int| 0 <= i < mid + 1 implies self.keys@[i] <= k by {
                    if i < mid {
                        assert(self.keys@[i] < self.keys@[mid as int]);
                    }
                }
                lo = mid + 1;
            } else {
                assert forall|i: int| mid <= i < self.keys.len() implies self.keys@[i] > k by {
                    if i > mid {
                        assert(self.keys@[mid as int] < self.keys@[i]);
                    }
                }
                hi = mid;
            }
        }
        proof {
            lemma_floor_position_unique(self.keys@, k, lo - 1);
            self.lemma_floor_key(k);
        }
        if lo == 0 {
            None
        } else {
            Some(lo - 1)
        }
    }

    /// The position of the address `k`, if the map holds it.
    pub fn find(&self, k: u64) -> (r: Option<usize>)
        requires
            self.wf(),
        ensures
            match r {
                Some(i) => i < self.spec_keys().len() && self.spec_keys()[i as int] == k,
                None => !self.spec_keys().contains(k),
            },
            r is Some <==> self@.dom().contains(k),
    {
        proof {
            lemma_floor_position(self.keys@, k);
        }
        match self.floor_index(k) {
            Some(i) => {
                if self.keys[i] == k {
                    assert(self.keys@.contains(k));
                    Some(i)
                } else {
                    None
                }
            },
            None => None,
        }
    }

    /// The value stored for the address `k`.
    pub fn get(&self, k: u64) -> (r: Option<&V>)
        requires
            self.wf(),
        ensures
            match r {
                Some(v) => self@.dom().contains(k) && self@[k] == *v,
                None => !self@.dom().contains(k),
            },
    {
        match self.find(k) {
            Some(i) => {
                proof {
                    self.lemma_view_at(i as int);
                }
                Some(&self.values[i])
            },
            None => None,
        }
    }

    /// Whether the map holds the address `k`.
    pub fn contains_key(&self, k: u64) -> (r: bool)
        requires
            self.wf(),
        ensures
            r == self@.dom().contains(k),
    {
        self.find(k).is_some()
    }

    /// Stores `v` for the address `k`, in place of the value that the map
    /// held for it, if any.
    pub fn insert(&mut self, k: u64, v: V)
        requires
            old(self).wf(),
        ensures
            final(self).wf(),
            final(self)@ == old(self)@.insert(k, v),
            old(self).spec_keys().contains(k) ==> {
                &&& final(self).spec_keys() == old(self).spec_keys()
                &&& final(self).spec_values() == old(self).spec_values().update(
                    floor_position(old(self).spec_keys(), k),
                    v,
                )
            },
            !old(self).spec_keys().contains(k) ==> {
                &&& final(self).spec_keys() == old(self).spec_keys().insert(
                    floor_position(old(self).spec_keys(), k) + 1,
                    k,
                )
                &&& final(self).spec_values() == old(self).spec_values().insert(
                    floor_position(old(self).spec_keys(), k) + 1,
                    v,
                )
            },
    {
        proof {
            lemma_floor_position(self.keys@, k);
        }
        let ghost old_keys = self.keys@;
        let ghost old_values = self.values@;
        let ghost old_view = self@;
        let at = self.floor_index(k);
        let n: usize = self.keys.len();
        let pos: usize = match at {
            Some(i) => {
                if self.keys[i] == k {
                    self.values.set(i, v);
                    proof {
                        assert(old_keys.contains(k));
                        assert forall|a: u64| #[trigger]
                            old_view.insert(k, v).dom().contains(a) implies self@.dom().contains(
                            a,
                        ) && self@[a] == old_view.insert(k, v)[a] by {
                            if a == k {
                                self.lemma_view_at(i as int);
                            } else {
                                let j = old_keys.index_of(a);
                                assert(j != i);
                            }
                        }
                        assert(self@ =~= old_view.insert(k, v));
                    }
                    return ;
                }
                assert(i < n);
                i + 1
            },
            None => 0,
        };
        proof {
            assert(!old_keys.contains(k)) by {
                if old_keys.contains(k) {
                    let j = old_keys.index_of(k);
                    assert(old_keys[j] == k);
                }
            }
        }
        self.keys.insert(pos, k);
        self.values.insert(pos, v);
        proof {
            let new_keys = self.keys@;
            assert forall|i: int, j: int| 0 <= i < j < new_keys.len() implies new_keys[i]
                < new_keys[j] by {
                if j < pos {
                    assert(new_keys[i] == old_keys[i] && new_keys[j] == old_keys[j]);
                } else if j == pos {
                    assert(new_keys[i] == old_keys[i]);
                } else if i < pos {
                    assert(new_keys[i] == old_keys[i] && new_keys[j] == old_keys[j - 1]);
                } else if i == pos {
                    assert(new_keys[j] == old_keys[j - 1]);
                } else {
                    assert(new_keys[i] == old_keys[i - 1] && new_keys[j] == old_keys[j - 1]);
                }
            }
            assert(self.wf());
            assert forall|a: u64| #[trigger]
                old_view.insert(k, v).dom().contains(a) implies self@.dom().contains(a)
                && self@[a] == old_view.insert(k, v)[a] by {
                if a == k {
                    assert(new_keys[pos as int] == k);
                    self.lemma_view_at(pos as int);
                } else {
                    let j = old_keys.index_of(a);
                    let jj = if j < pos {
                        j
                    } else {
                        j + 1
                    };
                    assert(new_keys[jj] == a);
                    self.lemma_view_at(jj);
                }
            }
            assert forall|a: u64| #[trigger] self@.dom().contains(a) implies old_view.insert(
                k,
                v,
            ).dom().contains(a) by {
                let j = new_keys.index_of(a);
                if j < pos {
                    assert(old_keys[j] == a);
                } else if j > pos {
                    assert(old_keys[j - 1] == a);
                }
            }
            assert(self@ =~= old_view.insert(k, v));
        }
    }
}

} // verus!
