//! Finite maps from names to values.

use vstd::prelude::*;

use crate::text::{names, position, Name};

verus! {

/// A map from names to values that remembers the order in which its keys were
/// first given.
pub struct NameMap<V> {
    pub keys: Vec<String>,
    pub vals: Vec<V>,
}

impl<V> View for NameMap<V> {
    type V = Map<Name, V>;

    open spec fn view(&self) -> Map<Name, V> {
        Map::new(
            |k: Name| self.key_seq().contains(k),
            |k: Name| self.vals@[self.key_seq().index_of(k)],
        )
    }
}

impl<V> NameMap<V> {
    /// The keys, in the order in which they were first given.
    pub open spec fn key_seq(&self) -> Seq<Name> {
        names(self.keys@)
    }

    /// Every key occurs once and has its value at the same position.
    pub open spec fn wf(&self) -> bool {
        &&& self.keys@.len() == self.vals@.len()
        &&& self.key_seq().no_duplicates()
    }

    pub fn new() -> (r: NameMap<V>)
        ensures
            r.wf(),
            r@ == Map::<Name, V>::empty(),
            r.key_seq() == Seq::<Name>::empty(),
    {
        let r = NameMap { keys: Vec::new(), vals: Vec::new() };
        assert(r@ =~= Map::<Name, V>::empty());
        assert(r.key_seq() =~= Seq::<Name>::empty());
        r
    }

    pub proof fn lemma_at(&self, i: int)
        requires
            self.wf(),
            0 <= i < self.keys@.len(),
        ensures
            self@.contains_key(self.key_seq()[i]),
            self@[self.key_seq()[i]] == self.vals@[i],
    {
        let q = self.key_seq();
        assert(q.contains(q[i]));
        assert(q.index_of(q[i]) == i);
    }

    pub fn len(&self) -> (r: usize)
        ensures
            r == self.key_seq().len(),
    {
        self.keys.len()
    }

    /// The position of the key `k`.
    pub fn find(&self, k: &str) -> (r: Option<usize>)
        requires
            self.wf(),
        ensures
            match r {
                Some(i) => i < self.keys@.len() && self.key_seq()[i as int] == k@
                    && self@.contains_key(k@) && self@[k@] == self.vals@[i as int],
                None => !self@.contains_key(k@),
            },
    {
        match position(&self.keys, k) {
            Some(i) => {
                proof {
                    self.lemma_at(i as int);
                }
                Some(i)
            },
            None => None,
        }
    }

    /// The value of the key `k`.
    pub fn get(&self, k: &str) -> (r: Option<&V>)
        requires
            self.wf(),
        ensures
            match r {
                Some(v) => self@.contains_key(k@) && *v == self@[k@],
                None => !self@.contains_key(k@),
            },
    {
        match self.find(k) {
            Some(i) => Some(&self.vals[i]),
            None => None,
        }
    }

    pub fn contains_key(&self, k: &str) -> (r: bool)
        requires
            self.wf(),
        ensures
            r == self@.contains_key(k@),
    {
        match self.find(k) {
            Some(_) => true,
            None => false,
        }
    }

    /// Gives the key `k` the value `v`; the result says whether `k` had a value
    /// before.
    pub fn insert(&mut self, k: String, v: V) -> (r: bool)
        requires
            old(self).wf(),
        ensures
            final(self).wf(),
            final(self)@ == old(self)@.insert(k@, v),
            r == old(self)@.contains_key(k@),
            final(self).key_seq() == if r {
                old(self).key_seq()
            } else {
                old(self).key_seq().push(k@)
            },
    {
        let ghost before = *self;
        let ghost q = self.key_seq();
        match self.find(k.as_str()) {
            Some(i) => {
                self.vals.set(i, v);
                proof {
                    assert(self.key_seq() == q);
                    assert(q.index_of(k@) == i);
                    assert forall|x: Name| self@.contains_key(x) implies self@[x]
                        == before@.insert(k@, v)[x] by {
                        let j = q.index_of(x);
                        assert(q[j] == x);
                    }
                    assert(self@ =~= before@.insert(k@, v));
                }
                true
            },
            None => {
                let ghost name = k@;
                self.keys.push(k);
                self.vals.push(v);
                proof {
                    assert(self.key_seq() =~= q.push(name));
                    let q2 = self.key_seq();
                    assert(q2[q.len() as int] == name);
                    assert(!q.contains(name));
                    assert(q2.no_duplicates());
                    assert forall|x: Name| before@.insert(name, v).contains_key(x)
                        == self@.contains_key(x) by {
                        if q.contains(x) {
                            let j = q.index_of(x);
                            assert(q2[j] == x);
                        }
                        if q2.contains(x) {
                            let j = q2.index_of(x);
                            if j < q.len() {
                                assert(q[j] == x);
                            }
                        }
                    }
                    assert forall|x: Name| self@.contains_key(x) implies self@[x]
                        == before@.insert(name, v)[x] by {
                        let j = q2.index_of(x);
                        assert(q2[j] == x);
                        if j < q.len() {
                            assert(q[j] == x);
                            assert(q.index_of(x) == j);
                        }
                    }
                    assert(self@ =~= before@.insert(name, v));
                }
                false
            },
        }
    }

    /// Gives the key `k` the value `v` unless it already has one.
    pub fn or_insert(&mut self, k: &str, v: V)
        requires
            old(self).wf(),
        ensures
            final(self).wf(),
            final(self)@ == if old(self)@.contains_key(k@) {
                old(self)@
            } else {
                old(self)@.insert(k@, v)
            },
    {
        if !self.contains_key(k) {
            let _ = self.insert(k.to_owned(), v);
        }
    }
}

}
