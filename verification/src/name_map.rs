//! A map keyed by text that keeps its keys in lexicographic order, so that a
//! name is found by bisection.

use crate::text::{
    lemma_lex_asymmetric, lemma_lex_irreflexive, lemma_lex_total, lemma_lex_transitive, lex_lt,
    lex_place, Placement,
};
use vstd::prelude::*;

verus! {

/// Whether each text of `s` comes strictly before all that follow it.
pub open spec fn strictly_sorted(s: Seq<Seq<char>>) -> bool {
    forall|i: int, j: int| 0 <= i < j < s.len() ==> lex_lt(s[i], s[j])
}

/// A map from texts to values, held as two parallel vectors in lexicographic
/// order of the keys.
pub struct NameMap<V> {
    keys: Vec<Vec<char>>,
    values: Vec<V>,
}

impl<V> NameMap<V> {
    /// The keys of the map, in lexicographic order.
    pub closed spec fn spec_keys(&self) -> Seq<Seq<char>> {
        Seq::new(self.keys@.len(), |i: int| self.keys@[i]@)
    }

    /// The values of the map, each at the position of its key.
    pub closed spec fn spec_values(&self) -> Seq<V> {
        self.values@
    }

    /// The invariant of the type: one value for each key, and the keys
    /// strictly sorted.
    pub open spec fn wf(&self) -> bool {
        &&& self.spec_keys().len() == self.spec_values().len()
        &&& strictly_sorted(self.spec_keys())
    }

    /// The map as a mathematical map.
    pub open spec fn view(&self) -> Map<Seq<char>, V> {
        Map::new(
            |k: Seq<char>| self.spec_keys().contains(k),
            |k: Seq<char>| self.spec_values()[self.spec_keys().index_of(k)],
        )
    }

    /// In a well-formed map the value at a position belongs to the key at
    /// that position.
    pub proof fn lemma_view_at(&self, i: int)
        requires
            self.wf(),
            0 <= i < self.spec_keys().len(),
        ensures
            self@.dom().contains(self.spec_keys()[i]),
            self@[self.spec_keys()[i]] == self.spec_values()[i],
    {
        let k = self.spec_keys()[i];
        assert(self.spec_keys().contains(k));
        let j = self.spec_keys().index_of(k);
        assert(0 <= j < self.spec_keys().len() && self.spec_keys()[j] == k);
        lemma_lex_irreflexive(k);
        if j < i {
            assert(lex_lt(self.spec_keys()[j], self.spec_keys()[i]));
        } else if i < j {
            assert(lex_lt(self.spec_keys()[i], self.spec_keys()[j]));
        }
    }

    /// An empty map.
    pub fn new() -> (m: Self)
        ensures
            m.wf(),
            m.spec_keys() == Seq::<Seq<char>>::empty(),
            m.spec_values() == Seq::<V>::empty(),
            m@ == Map::<Seq<char>, V>::empty(),
    {
        let m = NameMap { keys: Vec::new(), values: Vec::new() };
        assert(m.spec_keys() =~= Seq::<Seq<char>>::empty());
        assert(m@ =~= Map::<Seq<char>, V>::empty());
        m
    }

    /// The number of entries.
    pub fn len(&self) -> (n: usize)
        requires
            self.wf(),
        ensures
            n == self.spec_keys().len(),
    {
        self.keys.len()
    }

    /// The key at position `i`.
    pub fn key_at(&self, i: usize) -> (k: &Vec<char>)
        requires
            self.wf(),
            i < self.spec_keys().len(),
        ensures
            k@ == self.spec_keys()[i as int],
    {
        &self.keys[i]
    }

    /// The value at position `i`.
    pub fn value_at(&self, i: usize) -> (v: &V)
        requires
            self.wf(),
            i < self.spec_keys().len(),
        ensures
            *v == self.spec_values()[i as int],
    {
        &self.values[i]
    }

    /// The number of keys that come strictly before `k`; the key at that
    /// position, if there is one, is the first that does not.
    fn lower_bound(&self, k: &Vec<char>) -> (pos: usize)
        requires
            self.wf(),
        ensures
            pos <= self.spec_keys().len(),
            forall|i: int| 0 <= i < pos ==> lex_lt(self.spec_keys()[i], k@),
            forall|i: int| pos <= i < self.spec_keys().len() ==> !lex_lt(self.spec_keys()[i], k@),
    {
        let mut lo: usize = 0;
        let mut hi: usize = self.keys.len();
        while lo < hi
            invariant
                lo <= hi <= self.keys.len(),
                self.wf(),
                forall|i: int| 0 <= i < lo ==> lex_lt(self.spec_keys()[i], k@),
                forall|i: int|
                    hi <= i < self.spec_keys().len() ==> !lex_lt(self.spec_keys()[i], k@),
            decreases hi - lo,
        {
            let mid: usize = lo + (hi - lo) / 2;
            assert(self.spec_keys()[mid as int] == self.keys@[mid as int]@);
            match lex_place(&self.keys[mid], k) {
                Placement::Before => {
                    assert forall|i: int| 0 <= i < mid + 1 implies lex_lt(
                        self.spec_keys()[i],
                        k@,
                    ) by {
                        if i < mid {
                            assert(lex_lt(self.spec_keys()[i], self.spec_keys()[mid as int]));
                            lemma_lex_transitive(
                                self.spec_keys()[i],
                                self.spec_keys()[mid as int],
                                k@,
                            );
                        }
                    }
                    lo = mid + 1;
                },
                _ => {
                    assert forall|i: int| mid <= i < self.spec_keys().len() implies !lex_lt(
                        self.spec_keys()[i],
                        k@,
                    ) by {
                        lemma_lex_total(self.spec_keys()[mid as int], k@);
                        lemma_lex_irreflexive(k@);
                        if i > mid {
                            assert(lex_lt(self.spec_keys()[mid as int], self.spec_keys()[i]));
                            if lex_lt(self.spec_keys()[i], k@) {
                                lemma_lex_transitive(
                                    self.spec_keys()[mid as int],
                                    self.spec_keys()[i],
                                    k@,
                                );
                                lemma_lex_asymmetric(self.spec_keys()[mid as int], k@);
                            }
                        } else {
                            if lex_lt(self.spec_keys()[mid as int], k@) {
                                lemma_lex_asymmetric(self.spec_keys()[mid as int], k@);
                            }
                        }
                    }
                    hi = mid;
                },
            }
        }
        lo
    }

    /// The position of the key `k`, if the map holds it.
    pub fn find(&self, k: &Vec<char>) -> (r: Option<usize>)
        requires
            self.wf(),
        ensures
            match r {
                Some(i) => i < self.spec_keys().len() && self.spec_keys()[i as int] == k@,
                None => !self.spec_keys().contains(k@),
            },
            r is Some <==> self@.dom().contains(k@),
    {
        let pos = self.lower_bound(k);
        if pos < self.keys.len() {
            assert(self.spec_keys()[pos as int] == self.keys@[pos as int]@);
            match lex_place(&self.keys[pos], k) {
                Placement::Same => {
                    assert(self.spec_keys().contains(k@));
                    return Some(pos);
                },
                _ => {},
            }
        }
        proof {
            if self.spec_keys().contains(k@) {
                let j = self.spec_keys().index_of(k@);
                lemma_lex_irreflexive(k@);
                if j > pos {
                    assert(lex_lt(self.spec_keys()[pos as int], self.spec_keys()[j]));
                }
            }
        }
        None
    }

    /// The value stored for the key `k`.
    pub fn get(&self, k: &Vec<char>) -> (r: Option<&V>)
        requires
            self.wf(),
        ensures
            match r {
                Some(v) => self@.dom().contains(k@) && self@[k@] == *v,
                None => !self@.dom().contains(k@),
            },
    {
        match self.find(k) {
            Some(i) => {
                proof {
                    self.lemma_view_at(i as int);
                }
                Some(&self.values[i])
            },
            None => None,
        }
    }

    /// Whether the map holds the key `k`.
    pub fn contains_key(&self, k: &Vec<char>) -> (r: bool)
        requires
            self.wf(),
        ensures
            r == self@.dom().contains(k@),
    {
        self.find(k).is_some()
    }

    /// Stores `v` for the key `k`, in place of the value that the map held
    /// for it, if any.
    pub fn insert(&mut self, k: Vec<char>, v: V)
        requires
            old(self).wf(),
        ensures
            final(self).wf(),
            final(self)@ == old(self)@.insert(k@, v),
            old(self)@.dom().contains(k@) ==> final(self).spec_keys() == old(self).spec_keys(),
            !old(self)@.dom().contains(k@) ==> final(self).spec_keys().len() == old(
                self,
            ).spec_keys().len() + 1,
    {
        let ghost old_keys = self.spec_keys();
        let ghost old_view = self@;
        let pos = self.lower_bound(&k);
        if pos < self.keys.len() {
            assert(self.spec_keys()[pos as int] == self.keys@[pos as int]@);
            match lex_place(&self.keys[pos], &k) {
                Placement::Same => {
                    self.values.set(pos, v);
                    proof {
                        assert(self.spec_keys() =~= old_keys);
                        assert(old_keys.contains(k@));
                        assert forall|a: Seq<char>| #[trigger]
                            old_view.insert(k@, v).dom().contains(a) implies self@.dom().contains(
                            a,
                        ) && self@[a] == old_view.insert(k@, v)[a] by {
                            if a == k@ {
                                self.lemma_view_at(pos as int);
                            } else {
                                let j = old_keys.index_of(a);
                                assert(j != pos);
                            }
                        }
                        assert(self@ =~= old_view.insert(k@, v));
                    }
                    return ;
                },
                _ => {},
            }
        }
        proof {
            lemma_lex_irreflexive(k@);
            if old_keys.contains(k@) {
                let j = old_keys.index_of(k@);
                if j > pos {
                    assert(lex_lt(old_keys[pos as int], old_keys[j]));
                }
            }
            assert(!old_keys.contains(k@));
        }
        let ghost kv = k@;
        self.keys.insert(pos, k);
        self.values.insert(pos, v);
        proof {
            let new_keys = self.spec_keys();
            assert(new_keys =~= old_keys.insert(pos as int, kv));
            assert forall|i: int, j: int| 0 <= i < j < new_keys.len() implies lex_lt(
                new_keys[i],
                new_keys[j],
            ) by {
                if j < pos {
                    assert(new_keys[i] == old_keys[i] && new_keys[j] == old_keys[j]);
                } else if j == pos {
                    assert(new_keys[i] == old_keys[i]);
                } else if i < pos {
                    assert(new_keys[i] == old_keys[i] && new_keys[j] == old_keys[j - 1]);
                } else if i == pos {
                    assert(new_keys[j] == old_keys[j - 1]);
                    lemma_lex_total(kv, old_keys[j - 1]);
                } else {
                    assert(new_keys[i] == old_keys[i - 1] && new_keys[j] == old_keys[j - 1]);
                }
            }
            assert(self.wf());
            assert forall|a: Seq<char>| #[trigger]
                old_view.insert(kv, v).dom().contains(a) implies self@.dom().contains(a)
                && self@[a] == old_view.insert(kv, v)[a] by {
                if a == kv {
                    assert(new_keys[pos as int] == kv);
                    self.lemma_view_at(pos as int);
                } else {
                    let j = old_keys.index_of(a);
                    let jj = if j < pos {
                        j
                    } else {
                        j + 1
                    };
                    assert(new_keys[jj] == a);
                    self.lemma_view_at(jj);
                }
            }
            assert forall|a: Seq<char>| #[trigger] self@.dom().contains(a) implies old_view.insert(
                kv,
                v,
            ).dom().contains(a) by {
                let j = new_keys.index_of(a);
                if j < pos {
                    assert(old_keys[j] == a);
                } else if j > pos {
                    assert(old_keys[j - 1] == a);
                }
            }
            assert(self@ =~= old_view.insert(kv, v));
        }
    }

    /// Puts `v` in place of the value at position `i` and hands out the
    /// value that stood there.
    pub fn replace_value_at(&mut self, i: usize, v: V) -> (previous: V)
        requires
            old(self).wf(),
            i < old(self).spec_keys().len(),
        ensures
            final(self).wf(),
            previous == old(self).spec_values()[i as int],
            final(self).spec_keys() == old(self).spec_keys(),
            final(self).spec_values() == old(self).spec_values().update(i as int, v),
            final(self)@ == old(self)@.insert(old(self).spec_keys()[i as int], v),
    {
        let ghost old_keys = self.spec_keys();
        let ghost old_values = self.values@;
        let ghost old_view = self@;
        let ghost k = self.spec_keys()[i as int];
        self.values.push(v);
        let previous = self.values.swap_remove(i);
        proof {
            assert(self.values@ =~= old_values.update(i as int, v));
            assert(self.spec_keys() =~= old_keys);
            assert forall|a: Seq<char>| #[trigger]
                old_view.insert(k, v).dom().contains(a) implies self@.dom().contains(a)
                && self@[a] == old_view.insert(k, v)[a] by {
                if a == k {
                    self.lemma_view_at(i as int);
                } else {
                    let j = old_keys.index_of(a);
                    assert(j != i);
                }
            }
            assert(old_keys.contains(k));
            assert forall|a: Seq<char>| #[trigger] self@.dom().contains(a) implies old_view.insert(
                k,
                v,
            ).dom().contains(a) by {
                assert(old_keys.contains(a));
            }
            assert(self@ =~= old_view.insert(k, v));
        }
        previous
    }
}

} // verus!
