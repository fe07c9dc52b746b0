//! Finite sets of names, kept in ascending order.

use vstd::prelude::*;

use crate::text::{
    clone_names, has_name, lemma_lex_irreflexive, lemma_lex_total, lemma_lex_transitive, lex_lt,
    names, position, str_eq, str_lt, Name,
};

verus! {

/// Strictly ascending, so without repetition.
pub open spec fn ascending(s: Seq<Name>) -> bool {
    forall|i: int, j: int| 0 <= i < j < s.len() ==> lex_lt(#[trigger] s[i], #[trigger] s[j])
}

/// The elements of a finite set of names in ascending order.
pub open spec fn sorted(s: Set<Name>) -> Seq<Name> {
    choose|q: Seq<Name>| ascending(q) && q.to_set() == s
}

/// Two ascending sequences with the same elements are the same sequence.
pub proof fn lemma_ascending_unique(a: Seq<Name>, b: Seq<Name>)
    requires
        ascending(a),
        ascending(b),
        a.to_set() == b.to_set(),
    ensures
        a == b,
    decreases a.len(),
{
    if a.len() == 0 {
        if b.len() > 0 {
            assert(b.to_set().contains(b[0]));
            assert(a.contains(b[0]));
        }
        assert(a =~= b);
    } else {
        assert(a.to_set().contains(a.last()));
        assert(b.contains(a.last()));
        assert(b.to_set().contains(b.last()));
        assert(a.contains(b.last()));
        let i = choose|i: int| 0 <= i < b.len() && b[i] == a.last();
        let j = choose|j: int| 0 <= j < a.len() && a[j] == b.last();
        if a.last() != b.last() {
            assert(lex_lt(b[i], b.last()));
            assert(lex_lt(a[j], a.last()));
            lemma_lex_transitive(a.last(), b.last(), a.last());
            lemma_lex_irreflexive(a.last());
        }
        let a1 = a.drop_last();
        let b1 = b.drop_last();
        assert(a1.to_set() =~= b1.to_set()) by {
            assert forall|x: Name| a1.contains(x) implies b1.contains(x) by {
                let k = choose|k: int| 0 <= k < a1.len() && a1[k] == x;
                assert(a[k] == x);
                assert(a.to_set().contains(x));
                assert(b.contains(x));
                let m = choose|m: int| 0 <= m < b.len() && b[m] == x;
                assert(lex_lt(a[k], a.last()));
                lemma_lex_irreflexive(x);
                assert(m < b.len() - 1);
                assert(b1[m] == x);
            }
            assert forall|x: Name| b1.contains(x) implies a1.contains(x) by {
                let k = choose|k: int| 0 <= k < b1.len() && b1[k] == x;
                assert(b[k] == x);
                assert(b.to_set().contains(x));
                assert(a.contains(x));
                let m = choose|m: int| 0 <= m < a.len() && a[m] == x;
                assert(lex_lt(b[k], b.last()));
                lemma_lex_irreflexive(x);
                assert(m < a.len() - 1);
                assert(a1[m] == x);
            }
        }
        lemma_ascending_unique(a1, b1);
        assert(a =~= a1.push(a.last()));
        assert(b =~= b1.push(b.last()));
    }
}

/// An ascending sequence is what its set of elements sorts to.
pub proof fn lemma_sorted(q: Seq<Name>)
    requires
        ascending(q),
    ensures
        sorted(q.to_set()) == q,
{
    let s = sorted(q.to_set());
    assert(ascending(q) && q.to_set() == q.to_set());
    lemma_ascending_unique(s, q);
}

/// `q` with `x` inserted at position `p`, where it belongs, is ascending.
pub proof fn lemma_insert_ascending(q: Seq<Name>, p: int, x: Name)
    requires
        ascending(q),
        0 <= p <= q.len(),
        forall|i: int| 0 <= i < p ==> lex_lt(#[trigger] q[i], x),
        forall|i: int| p <= i < q.len() ==> lex_lt(x, #[trigger] q[i]),
    ensures
        ascending(q.insert(p, x)),
        q.insert(p, x).to_set() == q.to_set().insert(x),
{
    let r = q.insert(p, x);
    assert forall|i: int, j: int| 0 <= i < j < r.len() implies lex_lt(#[trigger] r[i], #[trigger] r[j]) by {
        let a = if i < p {
            i
        } else {
            i - 1
        };
        let b = if j < p {
            j
        } else {
            j - 1
        };
        if i != p {
            assert(r[i] == q[a]);
        }
        if j != p {
            assert(r[j] == q[b]);
        }
    }
    assert forall|y: Name| r.to_set().contains(y) == q.to_set().insert(x).contains(y) by {
        if r.contains(y) {
            let i = choose|i: int| 0 <= i < r.len() && r[i] == y;
            if i < p {
                assert(q[i] == y);
            } else if i > p {
                assert(q[i - 1] == y);
            }
        }
        if q.contains(y) {
            let i = choose|i: int| 0 <= i < q.len() && q[i] == y;
            if i < p {
                assert(r[i] == y);
            } else {
                assert(r[i + 1] == y);
            }
        }
        assert(r[p] == x);
    }
    assert(r.to_set() =~= q.to_set().insert(x));
}

/// Every finite set has an ascending enumeration.
pub proof fn lemma_sorted_set(s: Set<Name>)
    requires
        s.finite(),
    ensures
        ascending(sorted(s)),
        sorted(s).to_set() == s,
        forall|x: Name| #[trigger] sorted(s).contains(x) <==> s.contains(x),
    decreases s.len(),
{
    let q = lemma_enumerate(s);
    lemma_sorted(q);
    assert forall|x: Name| #[trigger] sorted(s).contains(x) <==> s.contains(x) by {
        assert(q.to_set().contains(x) <==> q.contains(x));
    }
}

proof fn lemma_enumerate(s: Set<Name>) -> (q: Seq<Name>)
    requires
        s.finite(),
    ensures
        ascending(q),
        q.to_set() == s,
    decreases s.len(),
{
    if s.len() == 0 {
        let q = Seq::<Name>::empty();
        assert(q.to_set() =~= s);
        q
    } else {
        let x = s.choose();
        let r = lemma_enumerate(s.remove(x));
        assert(!r.contains(x)) by {
            assert(r.to_set().contains(x) <==> r.contains(x));
        }
        let p = lemma_place(r, x, r.len() as int);
        lemma_insert_ascending(r, p, x);
        let q = r.insert(p, x);
        assert(q.to_set() =~= s.remove(x).insert(x));
        assert(s.remove(x).insert(x) =~= s);
        q
    }
}

/// Where `x` belongs among the first `n` elements of an ascending sequence.
proof fn lemma_place(q: Seq<Name>, x: Name, n: int) -> (p: int)
    requires
        ascending(q),
        !q.contains(x),
        0 <= n <= q.len(),
        forall|i: int| n <= i < q.len() ==> lex_lt(x, #[trigger] q[i]),
    ensures
        0 <= p <= n,
        forall|i: int| 0 <= i < p ==> lex_lt(#[trigger] q[i], x),
        forall|i: int| p <= i < q.len() ==> lex_lt(x, #[trigger] q[i]),
    decreases n,
{
    if n == 0 {
        0
    } else {
        lemma_lex_total(q[n - 1], x);
        if lex_lt(q[n - 1], x) {
            assert forall|i: int| 0 <= i < n implies lex_lt(#[trigger] q[i], x) by {
                if i < n - 1 {
                    lemma_lex_transitive(q[i], q[n - 1], x);
                }
            }
            n
        } else {
            assert(q[n - 1] != x);
            lemma_place(q, x, n - 1)
        }
    }
}

/// A finite set of names.
pub struct NameSet {
    pub items: Vec<String>,
}

impl View for NameSet {
    type V = Set<Name>;

    open spec fn view(&self) -> Set<Name> {
        names(self.items@).to_set()
    }
}

impl NameSet {
    /// The names are stored in strictly ascending order.
    pub open spec fn wf(&self) -> bool {
        ascending(names(self.items@))
    }

    pub fn new() -> (r: NameSet)
        ensures
            r.wf(),
            r@ == Set::<Name>::empty(),
    {
        let r = NameSet { items: Vec::new() };
        assert(r@ =~= Set::<Name>::empty());
        r
    }

    /// The set with the one element `x`.
    pub fn singleton(x: &str) -> (r: NameSet)
        ensures
            r.wf(),
            r@ == Set::<Name>::empty().insert(x@),
    {
        let mut r = NameSet::new();
        let _ = r.insert(x);
        r
    }

    pub fn contains(&self, x: &str) -> (r: bool)
        ensures
            r == self@.contains(x@),
    {
        has_name(&self.items, x)
    }

    /// How many elements there are.
    pub fn len(&self) -> (r: usize)
        requires
            self.wf(),
        ensures
            r == self@.len(),
    {
        proof {
            let q = names(self.items@);
            assert forall|i: int, j: int|
                0 <= i < q.len() && 0 <= j < q.len() && i != j implies q[i] != q[j] by {
                lemma_lex_irreflexive(q[i]);
                if i < j {
                    assert(lex_lt(q[i], q[j]));
                } else {
                    assert(lex_lt(q[j], q[i]));
                }
            }
            q.unique_seq_to_set();
        }
        self.items.len()
    }

    /// Adds `x`; the result says whether it was new.
    pub fn insert(&mut self, x: &str) -> (r: bool)
        requires
            old(self).wf(),
        ensures
            final(self).wf(),
            final(self)@ == old(self)@.insert(x@),
            r == !old(self)@.contains(x@),
    {
        let ghost q = names(self.items@);
        let mut p: usize = 0;
        while p < self.items.len()
            invariant
                q == names(self.items@),
                p <= q.len(),
                ascending(q),
                forall|i: int| 0 <= i < p ==> lex_lt(#[trigger] q[i], x@),
            ensures
                p < q.len() ==> lex_lt(x@, q[p as int]),
            decreases q.len() - p,
        {
            let item = self.items[p].as_str();
            if str_eq(item, x) {
                assert(q[p as int] == x@);
                assert(q.to_set().insert(x@) =~= q.to_set());
                return false;
            }
            if !str_lt(item, x) {
                proof {
                    lemma_lex_total(q[p as int], x@);
                }
                break;
            }
            p = p + 1;
        }
        proof {
            assert forall|i: int| p <= i < q.len() implies lex_lt(x@, #[trigger] q[i]) by {
                if i > p {
                    assert(lex_lt(q[p as int], q[i]));
                    lemma_lex_transitive(x@, q[p as int], q[i]);
                }
            }
            if q.contains(x@) {
                let i = choose|i: int| 0 <= i < q.len() && q[i] == x@;
                lemma_lex_irreflexive(x@);
                assert(false);
            }
            lemma_insert_ascending(q, p as int, x@);
        }
        self.items.insert(p, x.to_owned());
        assert(names(self.items@) =~= q.insert(p as int, x@));
        true
    }

    /// Takes `x` out of the set.
    pub fn remove(&mut self, x: &str)
        requires
            old(self).wf(),
        ensures
            final(self).wf(),
            final(self)@ == old(self)@.remove(x@),
    {
        let ghost q = names(self.items@);
        match position(&self.items, x) {
            None => {
                assert(q.to_set().remove(x@) =~= q.to_set());
            },
            Some(p) => {
                let _ = self.items.remove(p);
                let ghost r = names(self.items@);
                proof {
                    assert(r =~= q.remove(p as int));
                    assert forall|i: int, j: int| 0 <= i < j < r.len() implies lex_lt(
                        #[trigger] r[i],
                        #[trigger] r[j],
                    ) by {
                        let a = if i < p {
                            i
                        } else {
                            i + 1
                        };
                        let b = if j < p {
                            j
                        } else {
                            j + 1
                        };
                        assert(r[i] == q[a] && r[j] == q[b]);
                    }
                    assert forall|y: Name| r.to_set().contains(y) == q.to_set().remove(
                        x@,
                    ).contains(y) by {
                        if r.contains(y) {
                            let i = choose|i: int| 0 <= i < r.len() && r[i] == y;
                            if i < p {
                                assert(q[i] == y);
                                assert(lex_lt(q[i], q[p as int]));
                            } else {
                                assert(q[i + 1] == y);
                                assert(lex_lt(q[p as int], q[i + 1]));
                            }
                            lemma_lex_irreflexive(x@);
                        }
                        if q.contains(y) && y != x@ {
                            let i = choose|i: int| 0 <= i < q.len() && q[i] == y;
                            if i < p {
                                assert(r[i] == y);
                            } else {
                                assert(r[i - 1] == y);
                            }
                        }
                    }
                    assert(r.to_set() =~= q.to_set().remove(x@));
                }
            },
        }
    }

    /// A copy of the set.
    pub fn copy(&self) -> (r: NameSet)
        requires
            self.wf(),
        ensures
            r.wf(),
            r@ == self@,
            r.items@ == self.items@,
    {
        NameSet { items: clone_names(&self.items) }
    }

    /// The elements, in ascending order.
    pub fn to_names(&self) -> (r: Vec<String>)
        requires
            self.wf(),
        ensures
            names(r@) == sorted(self@),
    {
        proof {
            lemma_sorted(names(self.items@));
        }
        clone_names(&self.items)
    }

    /// Adds every element of `other`; the result says whether any was new.
    pub fn extend(&mut self, other: &NameSet) -> (r: bool)
        requires
            old(self).wf(),
            other.wf(),
        ensures
            final(self).wf(),
            final(self)@ == old(self)@.union(other@),
            r == !other@.subset_of(old(self)@),
    {
        let ghost before = self@;
        let ghost o = names(other.items@);
        let mut changed: bool = false;
        let mut i: usize = 0;
        while i < other.items.len()
            invariant
                i <= o.len(),
                o == names(other.items@),
                self.wf(),
                self@ == before.union(o.take(i as int).to_set()),
                changed == !o.take(i as int).to_set().subset_of(before),
            decreases o.len() - i,
        {
            let ghost prior = self@;
            let added = self.insert(other.items[i].as_str());
            if added {
                changed = true;
            }
            proof {
                let x = o[i as int];
                assert(o.take(i + 1) =~= o.take(i as int).push(x));
                assert(o.take(i + 1).to_set() =~= o.take(i as int).to_set().insert(x)) by {
                    broadcast use vstd::seq_lib::group_seq_properties;
                }
                assert(self@ =~= before.union(o.take(i + 1).to_set()));
                if added {
                    assert(o.take(i + 1).to_set().contains(x));
                    assert(!before.contains(x));
                } else {
                    assert(prior.contains(x));
                    if !o.take(i as int).to_set().subset_of(before) {
                        let y = choose|y: Name|
                            o.take(i as int).to_set().contains(y) && !before.contains(y);
                        assert(o.take(i + 1).to_set().contains(y));
                    }
                }
            }
            i = i + 1;
        }
        assert(o.take(o.len() as int) =~= o);
        changed
    }
}

}
