//! The analytic heart of Whorl.
//!
//! Havender's theorem: if every lock acquisition respects a single global
//! partial order over lock classes, no set of threads can form a circular
//! wait, so lock-ordering deadlock is impossible. Therefore:
//!
//!   1. Each acquisition of class `C` while class `H` is held becomes an
//!      ordering edge `H -> C` ("H must be acquired before C"), witnessed by
//!      the acquisition site. When `H == C` this is a self-edge: a lock of a
//!      class is held while another lock of the same class is acquired, which
//!      (for a class with two or more instances) is exactly the two-account
//!      inversion.
//!   2. The edges make a directed graph over lock classes.
//!   3. If the graph is acyclic (a topological order exists), that order *is* a
//!      valid global lock order and the program is deadlock-free.
//!   4. If it has a cycle, that cycle is a lock-ordering inversion: a concrete
//!      chain of sites that order the classes into a ring. It is reported as
//!      the witness.
//!
//! Classes are numbered in the order in which they are first mentioned, and
//! edges are tried in ascending order, so the reported witness and order depend
//! on the program alone.

use vstd::prelude::*;

use crate::graph::{
    edge, find_cycle, is_ring, lemma_removal_order, lemma_ring, lemma_stuck, nodes, removal,
    removal_order, ring_of, rows, wf_graph, Graph,
};
use crate::model::{event_views, has_edge, Event, EventV, Program, ProgramV};
use crate::ordset::{sorted, NameSet};
use crate::text::{has_name, names, position, str_eq, Name};
use crate::unicode::{quote, quoted};

verus! {

/// One ordering constraint `before < after`, plus the acquisition site that
/// induced it. This is the witness reported on failure.
pub struct Constraint {
    pub before: String,
    pub after: String,
    pub function: String,
    pub site: String,
}

/// The verdict for one program.
pub enum Outcome {
    /// Acyclic: a global lock order exists; deadlock-free by Havender.
    DeadlockFree { order: Vec<String> },
    /// A circular wait is possible. `cycle` is the chain of constraints that
    /// close the ring (the last `after` equals the first `before`).
    Deadlock { cycle: Vec<Constraint> },
}

pub struct Report {
    pub program: String,
    pub event_count: usize,
    pub class_count: usize,
    pub constraint_count: usize,
    pub outcome: Outcome,
    /// True when the verdict is a *self-edge* deadlock on a class that has only
    /// one declared instance, that is, reentrant re-acquisition rather than a
    /// cross-instance inversion. Still reported (a non-reentrant lock would
    /// self-deadlock), but explained differently.
    pub self_loop_single_instance: bool,
}

/// The mathematical value of a [`Constraint`].
pub struct ConstraintV {
    pub before: Name,
    pub after: Name,
    pub function: Name,
    pub site: Name,
}

/// The mathematical value of an [`Outcome`].
pub enum OutcomeV {
    DeadlockFree { order: Seq<Name> },
    Deadlock { cycle: Seq<ConstraintV> },
}

/// The mathematical value of a [`Report`].
pub struct ReportV {
    pub program: Name,
    pub event_count: nat,
    pub class_count: nat,
    pub constraint_count: nat,
    pub outcome: OutcomeV,
    pub self_loop_single_instance: bool,
}

impl View for Constraint {
    type V = ConstraintV;

    open spec fn view(&self) -> ConstraintV {
        ConstraintV {
            before: self.before@,
            after: self.after@,
            function: self.function@,
            site: self.site@,
        }
    }
}

/// The values of a sequence of constraints.
pub open spec fn constraint_views(v: Seq<Constraint>) -> Seq<ConstraintV> {
    v.map_values(|c: Constraint| c@)
}

impl View for Outcome {
    type V = OutcomeV;

    open spec fn view(&self) -> OutcomeV {
        match self {
            Outcome::DeadlockFree { order } => OutcomeV::DeadlockFree { order: names(order@) },
            Outcome::Deadlock { cycle } => OutcomeV::Deadlock { cycle: constraint_views(cycle@) },
        }
    }
}

impl View for Report {
    type V = ReportV;

    open spec fn view(&self) -> ReportV {
        ReportV {
            program: self.program@,
            event_count: self.event_count as nat,
            class_count: self.class_count as nat,
            constraint_count: self.constraint_count as nat,
            outcome: self.outcome@,
            self_loop_single_instance: self.self_loop_single_instance,
        }
    }
}

/// `seen` with `x` at its end, unless `x` is already in it.
pub open spec fn note(seen: Seq<Name>, x: Name) -> Seq<Name> {
    if seen.contains(x) {
        seen
    } else {
        seen.push(x)
    }
}

/// The names of `q` in the order of their first occurrence.
pub open spec fn distinct(q: Seq<Name>) -> Seq<Name>
    decreases q.len(),
{
    if q.len() == 0 {
        Seq::empty()
    } else {
        note(distinct(q.drop_last()), q.last())
    }
}

/// The classes that the events mention: each event first the class it
/// acquires, then those it holds.
pub open spec fn mentioned(events: Seq<EventV>) -> Seq<Name>
    decreases events.len(),
{
    if events.len() == 0 {
        Seq::empty()
    } else {
        mentioned(events.drop_last()).push(events.last().acquires) + events.last().held
    }
}

/// The lock classes in the order of their first mention.
pub open spec fn classes(events: Seq<EventV>) -> Seq<Name> {
    distinct(mentioned(events))
}

/// The constraint that event `e` induces on the class `before`, which it holds.
pub open spec fn induced(e: EventV, before: Name) -> ConstraintV {
    ConstraintV { before, after: e.acquires, function: e.function, site: e.site }
}

/// All constraints that the events induce.
pub open spec fn all_constraints(events: Seq<EventV>) -> Seq<ConstraintV>
    decreases events.len(),
{
    if events.len() == 0 {
        Seq::empty()
    } else {
        all_constraints(events.drop_last()) + events.last().held.map_values(
            |h: Name| induced(events.last(), h),
        )
    }
}

/// The first constraint of `q` that orders `before` before `after`.
pub open spec fn first_of(q: Seq<ConstraintV>, before: Name, after: Name) -> Option<ConstraintV>
    decreases q.len(),
{
    if q.len() == 0 {
        None
    } else {
        match first_of(q.drop_last(), before, after) {
            Some(c) => Some(c),
            None => if q.last().before == before && q.last().after == after {
                Some(q.last())
            } else {
                None
            },
        }
    }
}

/// The constraints of `q` without those that repeat an earlier ordering.
pub open spec fn first_constraints(q: Seq<ConstraintV>) -> Seq<ConstraintV>
    decreases q.len(),
{
    if q.len() == 0 {
        Seq::empty()
    } else if first_of(q.drop_last(), q.last().before, q.last().after) is Some {
        first_constraints(q.drop_last())
    } else {
        first_constraints(q.drop_last()).push(q.last())
    }
}

/// The first acquisition of `after` while `before` was held.
pub open spec fn witness(events: Seq<EventV>, before: Name, after: Name) -> ConstraintV {
    first_of(all_constraints(events), before, after)->0
}

/// The class-ordering graph: the classes by number, and for each the numbers of
/// the classes that are acquired while it is held.
pub open spec fn class_graph(events: Seq<EventV>) -> Graph {
    let cls = classes(events);
    Seq::new(
        cls.len(),
        |i: int| nodes(cls.len()).filter(|j: usize| has_edge(events, cls[i], cls[j as int])),
    )
}

/// The class numbered `i` is the first that is acquired while it is held.
pub open spec fn first_self(events: Seq<EventV>, i: int) -> bool {
    let cls = classes(events);
    &&& 0 <= i < cls.len()
    &&& has_edge(events, cls[i], cls[i])
    &&& forall|j: int| 0 <= j < i ==> !has_edge(events, #[trigger] cls[j], cls[j])
}

/// The constraints between the successive classes of a ring.
pub open spec fn ring_constraints(events: Seq<EventV>, ring: Seq<usize>) -> Seq<ConstraintV> {
    let cls = classes(events);
    Seq::new(
        ring.len(),
        |k: int|
            witness(events, cls[ring[k] as int], cls[ring[(k + 1) % ring.len() as int] as int]),
    )
}

/// The verdict. A class that is acquired while it is held is a deadlock by
/// itself; else the order in which Kahn's algorithm removes the classes is a
/// lock order if it removes them all; else there is a cycle among the rest.
pub open spec fn verdict(events: Seq<EventV>) -> OutcomeV {
    let cls = classes(events);
    let order = removal_order(class_graph(events));
    if exists|i: int| first_self(events, i) {
        let i = choose|i: int| first_self(events, i);
        OutcomeV::Deadlock { cycle: seq![witness(events, cls[i], cls[i])] }
    } else if order.len() == cls.len() {
        OutcomeV::DeadlockFree { order: order.map_values(|i: usize| cls[i as int]) }
    } else {
        OutcomeV::Deadlock {
            cycle: ring_constraints(events, ring_of(class_graph(events), order)),
        }
    }
}

/// The verdict is a self-edge on a class that is known to have fewer than two
/// instances.
pub open spec fn reentrant(p: ProgramV) -> bool {
    exists|i: int|
        first_self(p.events, i) && p.class_instances.contains_key(
            #[trigger] classes(p.events)[i],
        ) && p.class_instances[classes(p.events)[i]] < 2
}

/// The report on a program.
pub open spec fn analysis(p: ProgramV) -> ReportV {
    ReportV {
        program: p.name,
        event_count: p.events.len(),
        class_count: classes(p.events).len(),
        constraint_count: first_constraints(all_constraints(p.events)).len(),
        outcome: verdict(p.events),
        self_loop_single_instance: reentrant(p),
    }
}

impl Clone for Constraint {
    fn clone(&self) -> (r: Constraint)
        ensures
            r@ == self@,
    {
        Constraint {
            before: self.before.clone(),
            after: self.after.clone(),
            function: self.function.clone(),
            site: self.site.clone(),
        }
    }
}

/// The class-ordering graph under construction.
struct Links {
    /// The classes by number.
    classes: Vec<String>,
    /// For each class the numbers of its successors, ascending.
    afters: Vec<Vec<usize>>,
    /// For each successor the number of the constraint that witnesses it.
    marks: Vec<Vec<usize>>,
    /// The constraints.
    found: Vec<Constraint>,
}

impl Links {
    /// The graph of the constraints `q` over the classes that `m` mentions.
    spec fn holds(&self, m: Seq<Name>, q: Seq<ConstraintV>) -> bool {
        let cls = distinct(m);
        &&& names(self.classes@) == cls
        &&& self.afters@.len() == cls.len()
        &&& self.marks@.len() == cls.len()
        &&& wf_graph(rows(self.afters@))
        &&& constraint_views(self.found@) == first_constraints(q)
        &&& forall|i: int|
            0 <= i < q.len() ==> cls.contains((#[trigger] q[i]).before) && cls.contains(q[i].after)
        &&& forall|u: int| 0 <= u < cls.len() ==> #[trigger] self.row_holds(u, cls, q)
    }

    spec fn row_holds(&self, u: int, cls: Seq<Name>, q: Seq<ConstraintV>) -> bool {
        &&& self.marks@[u]@.len() == self.afters@[u]@.len()
        &&& forall|i: int|
            0 <= i < self.afters@[u]@.len() ==> (#[trigger] self.marks@[u]@[i]) < self.found@.len()
                && first_of(q, cls[u], cls[self.afters@[u]@[i] as int]) == Some(
                self.found@[self.marks@[u]@[i] as int]@,
            )
        &&& forall|v: usize|
            v < cls.len() && first_of(q, cls[u], #[trigger] cls[v as int]) is Some
                ==> self.afters@[u]@.contains(v)
    }

    fn new() -> (r: Links)
        ensures
            r.holds(Seq::empty(), Seq::empty()),
    {
        let r = Links {
            classes: Vec::new(),
            afters: Vec::new(),
            marks: Vec::new(),
            found: Vec::new(),
        };
        assert(names(r.classes@) =~= Seq::empty());
        assert(constraint_views(r.found@) =~= Seq::empty());
        r
    }

    /// The number of the class `x`, which is added if it is new.
    fn intern(&mut self, x: &String, Ghost(m): Ghost<Seq<Name>>, Ghost(q): Ghost<Seq<ConstraintV>>) -> (r:
        usize)
        requires
            old(self).holds(m, q),
        ensures
            final(self).holds(m.push(x@), q),
            r < distinct(m.push(x@)).len(),
            distinct(m.push(x@))[r as int] == x@,
    {
        let ghost cls = distinct(m);
        let ghost cls2 = distinct(m.push(x@));
        assert(m.push(x@).drop_last() =~= m);
        assert(cls2 == note(cls, x@));
        match position(&self.classes, x.as_str()) {
            Some(i) => {
                assert(cls[i as int] == x@);
                i
            },
            None => {
                let i: usize = self.classes.len();
                self.classes.push(x.clone());
                self.afters.push(Vec::new());
                self.marks.push(Vec::new());
                proof {
                    assert(names(self.classes@) =~= cls2);
                    assert(self.afters.len() <= usize::MAX);
                    assert forall|k: int| 0 <= k < q.len() implies cls2.contains(
                        (#[trigger] q[k]).before,
                    ) && cls2.contains(q[k].after) by {
                        lemma_push_contains(cls, x@, q[k].before);
                        lemma_push_contains(cls, x@, q[k].after);
                    }
                    let g2 = rows(self.afters@);
                    let g = rows(old(self).afters@);
                    assert forall|u: int, k: int| 0 <= u < g2.len() && 0 <= k < g2[u].len() implies (
                    #[trigger] g2[u][k]) < g2.len() by {
                        if u < g.len() {
                            assert(g2[u] == g[u]);
                            assert(g[u][k] < g.len());
                        }
                    }
                    assert forall|u: int, k: int, l: int|
                        0 <= u < g2.len() && 0 <= k < l < g2[u].len() implies (#[trigger] g2[u][k])
                        < (#[trigger] g2[u][l]) by {
                        if u < g.len() {
                            assert(g2[u] == g[u]);
                            assert(g[u][k] < g[u][l]);
                        }
                    }
                    assert forall|u: int| 0 <= u < cls2.len() implies #[trigger] self.row_holds(
                        u,
                        cls2,
                        q,
                    ) by {
                        if u < cls.len() {
                            assert(old(self).row_holds(u, cls, q));
                            assert forall|k: int| 0 <= k < self.afters@[u]@.len() implies (
                            #[trigger] self.marks@[u]@[k]) < self.found@.len() && first_of(
                                q,
                                cls2[u],
                                cls2[self.afters@[u]@[k] as int],
                            ) == Some(self.found@[self.marks@[u]@[k] as int]@) by {
                                assert(g[u][k] < g.len());
                                assert(old(self).marks@[u]@[k] == self.marks@[u]@[k]);
                            }
                        }
                        assert forall|v: usize|
                            v < cls2.len() && first_of(
                                q,
                                cls2[u],
                                #[trigger] cls2[v as int],
                            ) is Some implies self.afters@[u]@.contains(v) by {
                            lemma_first_of(q, cls2[u], cls2[v as int]);
                            if u < cls.len() && v < cls.len() {
                                assert(old(self).row_holds(u, cls, q));
                                assert(cls[v as int] == cls2[v as int]);
                                assert(self.afters@[u] == old(self).afters@[u]);
                            }
                        }
                    }
                }
                i
            },
        }
    }

    /// The number of the constraint that orders the class `u` before `v`.
    fn mark(
        &self,
        u: usize,
        v: usize,
        Ghost(m): Ghost<Seq<Name>>,
        Ghost(q): Ghost<Seq<ConstraintV>>,
    ) -> (r: Option<usize>)
        requires
            self.holds(m, q),
            u < distinct(m).len(),
            v < distinct(m).len(),
        ensures
            match r {
                Some(k) => k < self.found@.len() && first_of(
                    q,
                    distinct(m)[u as int],
                    distinct(m)[v as int],
                ) == Some(self.found@[k as int]@),
                None => first_of(q, distinct(m)[u as int], distinct(m)[v as int]) is None,
            },
    {
        assert(self.row_holds(u as int, distinct(m), q));
        let mut p: usize = 0;
        while p < self.afters[u].len()
            invariant
                u < self.afters@.len(),
                self.holds(m, q),
                self.row_holds(u as int, distinct(m), q),
                p <= self.afters@[u as int]@.len(),
                forall|i: int| 0 <= i < p ==> self.afters@[u as int]@[i] != v,
            decreases self.afters@[u as int]@.len() - p,
        {
            if self.afters[u][p] == v {
                assert(self.marks@[u as int]@[p as int] < self.found@.len());
                return Some(self.marks[u][p]);
            }
            p = p + 1;
        }
        assert(!self.afters@[u as int]@.contains(v));
        assert(distinct(m)[v as int] == distinct(m)[v as int]);
        None
    }

    /// Adds a constraint, unless there is one between the same classes.
    fn link(
        &mut self,
        u: usize,
        v: usize,
        c: Constraint,
        Ghost(m): Ghost<Seq<Name>>,
        Ghost(q): Ghost<Seq<ConstraintV>>,
    )
        requires
            old(self).holds(m, q),
            u < distinct(m).len(),
            v < distinct(m).len(),
            distinct(m)[u as int] == c.before@,
            distinct(m)[v as int] == c.after@,
        ensures
            final(self).holds(m, q.push(c@)),
    {
        let ghost cls = distinct(m);
        let ghost q2 = q.push(c@);
        let ghost g = rows(self.afters@);
        let ghost row = self.afters@[u as int]@;
        assert(self.row_holds(u as int, cls, q));
        assert(g[u as int] == row);
        assert(names(self.classes@)[v as int] == cls[v as int]);
        let mut p: usize = 0;
        while p < self.afters[u].len() && self.afters[u][p] < v
            invariant
                u < self.afters@.len(),
                p <= self.afters@[u as int]@.len(),
                row == self.afters@[u as int]@,
                forall|i: int| 0 <= i < p ==> row[i] < v,
            decreases row.len() - p,
        {
            p = p + 1;
        }
        assert(q2.drop_last() =~= q);
        proof {
            lemma_distinct(m);
            assert forall|k: int| 0 <= k < q2.len() implies cls.contains((#[trigger] q2[k]).before)
                && cls.contains(q2[k].after) by {
                if k < q.len() {
                    assert(q2[k] == q[k]);
                } else {
                    assert(cls[u as int] == c.before@);
                    assert(cls[v as int] == c.after@);
                }
            }
        }
        if p < self.afters[u].len() && self.afters[u][p] == v {
            proof {
                assert(self.marks@[u as int]@[p as int] < self.found@.len());
                assert(first_of(q, c.before@, c.after@) is Some);
                assert forall|w: int| 0 <= w < cls.len() implies #[trigger] self.row_holds(
                    w,
                    cls,
                    q2,
                ) by {
                    assert(self.row_holds(w, cls, q));
                }
            }
        } else {
            proof {
                assert(!row.contains(v)) by {
                    if row.contains(v) {
                        let i = choose|i: int| 0 <= i < row.len() && row[i] == v;
                        if i > p {
                            assert(g[u as int][p as int] < g[u as int][i]);
                        }
                    }
                }
                assert(first_of(q, cls[u as int], cls[v as int]) is None);
            }
            let k: usize = self.found.len();
            let ghost before = *self;
            self.found.push(c);
            self.marks[u].insert(p, k);
            self.afters[u].insert(p, v);
            proof {
                assert(constraint_views(self.found@) =~= first_constraints(q2));
                let g2 = rows(self.afters@);
                let row2 = self.afters@[u as int]@;
                assert(row2 == row.insert(p as int, v));
                assert(g2[u as int] == row2);
                assert forall|w: int| 0 <= w < cls.len() && w != u implies self.afters@[w]
                    == before.afters@[w] && self.marks@[w] == before.marks@[w] && g2[w]
                    == g[w] by {}
                assert forall|w: int, i: int| 0 <= w < g2.len() && 0 <= i < g2[w].len() implies (
                #[trigger] g2[w][i]) < g2.len() by {
                    if w != u {
                        assert(g[w][i] < g.len());
                    } else if i < p {
                        assert(g[w][i] < g.len());
                    } else if i > p {
                        assert(g[w][i - 1] < g.len());
                    }
                }
                assert forall|w: int, i: int, j: int|
                    0 <= w < g2.len() && 0 <= i < j < g2[w].len() implies (#[trigger] g2[w][i]) < (
                #[trigger] g2[w][j]) by {
                    if w != u {
                        assert(g[w][i] < g[w][j]);
                    } else {
                        if p < row.len() {
                            assert(row[p as int] > v);
                        }
                        if i < p && j < p {
                            assert(g[w][i] < g[w][j]);
                        } else if i < p && j > p {
                            assert(g[w][i] < g[w][j - 1]);
                        } else if i > p {
                            assert(g[w][i - 1] < g[w][j - 1]);
                        } else if i == p {
                            if j - 1 > p {
                                assert(g[w][p as int] < g[w][j - 1]);
                            }
                        }
                    }
                }
                assert forall|w: int| 0 <= w < cls.len() implies #[trigger] self.row_holds(
                    w,
                    cls,
                    q2,
                ) by {
                    assert(before.row_holds(w, cls, q));
                    if w != u {
                        assert(cls[w] != cls[u as int]);
                        assert forall|i: int| 0 <= i < self.afters@[w]@.len() implies (
                        #[trigger] self.marks@[w]@[i]) < self.found@.len() && first_of(
                            q2,
                            cls[w],
                            cls[self.afters@[w]@[i] as int],
                        ) == Some(self.found@[self.marks@[w]@[i] as int]@) by {
                            assert(before.marks@[w]@[i] == self.marks@[w]@[i]);
                        }
                    } else {
                        assert forall|i: int| 0 <= i < self.afters@[w]@.len() implies (
                        #[trigger] self.marks@[w]@[i]) < self.found@.len() && first_of(
                            q2,
                            cls[w],
                            cls[self.afters@[w]@[i] as int],
                        ) == Some(self.found@[self.marks@[w]@[i] as int]@) by {
                            if i < p {
                                assert(before.marks@[w]@[i] == self.marks@[w]@[i]);
                                assert(row[i] == row2[i]);
                            } else if i > p {
                                assert(before.marks@[w]@[i - 1] == self.marks@[w]@[i]);
                                assert(row[i - 1] == row2[i]);
                            }
                        }
                        assert forall|x: usize|
                            x < cls.len() && first_of(
                                q2,
                                cls[w],
                                #[trigger] cls[x as int],
                            ) is Some implies row2.contains(x) by {
                            if x == v {
                                assert(row2[p as int] == v);
                            } else {
                                assert(cls[x as int] != cls[v as int]);
                                assert(row.contains(x));
                                let i = choose|i: int| 0 <= i < row.len() && row[i] == x;
                                if i < p {
                                    assert(row2[i] == x);
                                } else {
                                    assert(row2[i + 1] == x);
                                }
                            }
                        }
                    }
                }
            }
        }
    }
}

proof fn lemma_push_contains(q: Seq<Name>, x: Name, y: Name)
    ensures
        q.push(x).contains(y) == (q.contains(y) || x == y),
{
    if q.contains(y) {
        let i = choose|i: int| 0 <= i < q.len() && q[i] == y;
        assert(q.push(x)[i] == y);
    }
    assert(q.push(x)[q.len() as int] == x);
}

proof fn lemma_first_of(q: Seq<ConstraintV>, before: Name, after: Name)
    ensures
        match first_of(q, before, after) {
            Some(c) => q.contains(c) && c.before == before && c.after == after,
            None => forall|i: int|
                0 <= i < q.len() ==> !((#[trigger] q[i]).before == before && q[i].after == after),
        },
    decreases q.len(),
{
    if q.len() > 0 {
        lemma_first_of(q.drop_last(), before, after);
        match first_of(q.drop_last(), before, after) {
            Some(c) => {
                let r = q.drop_last();
                let i = choose|i: int| 0 <= i < r.len() && r[i] == c;
                assert(q[i] == c);
            },
            None => {
                assert(q[q.len() - 1] == q.last());
                assert forall|i: int| 0 <= i < q.len() && first_of(q, before, after) is None implies !((
                #[trigger] q[i]).before == before && q[i].after == after) by {
                    if i < q.len() - 1 {
                        assert(q.drop_last()[i] == q[i]);
                    }
                }
            },
        }
    }
}

/// A name occurs once among the distinct names, and every name occurs.
pub proof fn lemma_distinct(q: Seq<Name>)
    ensures
        distinct(q).no_duplicates(),
        forall|x: Name| distinct(q).contains(x) <==> q.contains(x),
    decreases q.len(),
{
    if q.len() > 0 {
        let r = q.drop_last();
        let d = distinct(r);
        lemma_distinct(r);
        assert(q =~= r.push(q.last()));
        assert forall|x: Name| distinct(q).contains(x) <==> q.contains(x) by {
            lemma_push_contains(r, q.last(), x);
            lemma_push_contains(d, q.last(), x);
        }
    }
}

/// There is an ordering edge between two classes if and only if a constraint
/// orders them.
pub proof fn lemma_constraint(events: Seq<EventV>, before: Name, after: Name)
    ensures
        first_of(all_constraints(events), before, after) is Some <==> has_edge(
            events,
            before,
            after,
        ),
{
    let q = all_constraints(events);
    lemma_first_of(q, before, after);
    if has_edge(events, before, after) {
        let i = choose|i: int|
            0 <= i < events.len() && (#[trigger] events[i]).acquires == after
                && events[i].held.contains(before);
        let j = choose|j: int| 0 <= j < events[i].held.len() && events[i].held[j] == before;
        let k = lemma_event_constraint(events, i, j);
        assert(q[k].before == before && q[k].after == after);
    }
    if first_of(q, before, after) is Some {
        let c = first_of(q, before, after)->0;
        let k = choose|k: int| 0 <= k < q.len() && q[k] == c;
        let i = lemma_constraint_event(events, k);
        assert(events[i].acquires == after);
    }
}

/// Where the constraint that an event induces stands.
proof fn lemma_event_constraint(events: Seq<EventV>, i: int, j: int) -> (k: int)
    requires
        0 <= i < events.len(),
        0 <= j < events[i].held.len(),
    ensures
        0 <= k < all_constraints(events).len(),
        all_constraints(events)[k] == induced(events[i], events[i].held[j]),
    decreases events.len(),
{
    let q = all_constraints(events.drop_last());
    if i < events.len() - 1 {
        assert(events.drop_last()[i] == events[i]);
        lemma_event_constraint(events.drop_last(), i, j)
    } else {
        q.len() as int + j
    }
}

/// Every constraint is induced by an event.
proof fn lemma_constraint_event(events: Seq<EventV>, k: int) -> (i: int)
    requires
        0 <= k < all_constraints(events).len(),
    ensures
        0 <= i < events.len(),
        events[i].held.contains(all_constraints(events)[k].before),
        all_constraints(events)[k] == induced(events[i], all_constraints(events)[k].before),
    decreases events.len(),
{
    let q = all_constraints(events.drop_last());
    if k < q.len() {
        let i = lemma_constraint_event(events.drop_last(), k);
        assert(events.drop_last()[i] == events[i]);
        i
    } else {
        assert(events.last().held[k - q.len()] == all_constraints(events)[k].before);
        events.len() - 1
    }
}

/// What the witness of an edge is: the constraint that some event induces.
pub proof fn lemma_witness(events: Seq<EventV>, before: Name, after: Name)
    requires
        has_edge(events, before, after),
    ensures
        witness(events, before, after).before == before,
        witness(events, before, after).after == after,
        exists|i: int|
            0 <= i < events.len() && (#[trigger] events[i]).held.contains(before)
                && witness(events, before, after) == induced(events[i], before),
{
    let q = all_constraints(events);
    lemma_constraint(events, before, after);
    lemma_first_of(q, before, after);
    let c = witness(events, before, after);
    let k = choose|k: int| 0 <= k < q.len() && q[k] == c;
    let i = lemma_constraint_event(events, k);
    assert(events[i].held.contains(before));
}

/// An ascending list of the nodes below `n` that satisfy `f` is the list of all
/// nodes without those that do not.
proof fn lemma_row(row: Seq<usize>, n: nat, f: spec_fn(usize) -> bool)
    requires
        n <= usize::MAX,
        forall|i: int, j: int| 0 <= i < j < row.len() ==> row[i] < row[j],
        forall|v: usize| #[trigger] row.contains(v) <==> v < n && f(v),
    ensures
        row == nodes(n).filter(f),
    decreases n,
{
    reveal(Seq::filter);
    if n == 0 {
        if row.len() > 0 {
            assert(row.contains(row[0]));
        }
        assert(nodes(0) =~= Seq::empty());
        assert(row =~= nodes(n).filter(f));
    } else {
        let k = (n - 1) as usize;
        assert(nodes(n).drop_last() =~= nodes(k as nat));
        if f(k) {
            assert(row.contains(k));
            let p = choose|p: int| 0 <= p < row.len() && row[p] == k;
            assert(p == row.len() - 1) by {
                if p < row.len() - 1 {
                    assert(row.contains(row[p + 1]));
                }
            }
            let r = row.drop_last();
            assert forall|v: usize| #[trigger] r.contains(v) <==> v < k && f(v) by {
                if r.contains(v) {
                    let i = choose|i: int| 0 <= i < r.len() && r[i] == v;
                    assert(row[i] == v);
                    assert(row.contains(v));
                }
                if v < k && f(v) {
                    assert(row.contains(v));
                    let i = choose|i: int| 0 <= i < row.len() && row[i] == v;
                    assert(r[i] == v);
                }
            }
            lemma_row(r, k as nat, f);
            assert(row =~= r.push(k));
        } else {
            assert forall|v: usize| #[trigger] row.contains(v) <==> v < k && f(v) by {}
            lemma_row(row, k as nat, f);
        }
    }
}

/// The graph that has been built is the class-ordering graph.
proof fn lemma_links(links: &Links, events: Seq<EventV>)
    requires
        links.holds(mentioned(events), all_constraints(events)),
    ensures
        rows(links.afters@) == class_graph(events),
{
    let cls = classes(events);
    let q = all_constraints(events);
    let g = rows(links.afters@);
    assert forall|u: int| 0 <= u < cls.len() implies g[u] == class_graph(events)[u] by {
        assert(links.row_holds(u, cls, q));
        let f = |j: usize| has_edge(events, cls[u], cls[j as int]);
        let row = g[u];
        assert forall|v: usize| #[trigger] row.contains(v) <==> v < cls.len() && f(v) by {
            lemma_constraint(events, cls[u], cls[v as int]);
            if row.contains(v) {
                let i = choose|i: int| 0 <= i < row.len() && row[i] == v;
                assert(g[u][i] < g.len());
                assert(links.marks@[u]@[i] < links.found@.len());
            }
        }
        assert forall|i: int, j: int| 0 <= i < j < row.len() implies row[i] < row[j] by {
            assert(g[u][i] < g[u][j]);
        }
        lemma_row(row, cls.len(), f);
    }
    assert(g =~= class_graph(events));
}

/// The class-ordering graph of a list of events.
fn collect(events: &Vec<Event>) -> (r: Links)
    ensures
        r.holds(mentioned(event_views(events@)), all_constraints(event_views(events@))),
{
    let ghost evs = event_views(events@);
    let mut links = Links::new();
    let mut i: usize = 0;
    assert(evs.take(0) =~= Seq::empty());
    while i < events.len()
        invariant
            evs == event_views(events@),
            i <= events@.len(),
            links.holds(mentioned(evs.take(i as int)), all_constraints(evs.take(i as int))),
        decreases events@.len() - i,
    {
        let e = &events[i];
        let ghost m = mentioned(evs.take(i as int));
        let ghost q = all_constraints(evs.take(i as int));
        let ghost ev = e@;
        let after = links.intern(&e.acquires, Ghost(m), Ghost(q));
        let ghost m1 = m.push(ev.acquires);
        let mut j: usize = 0;
        assert(m1 + ev.held.take(0) =~= m1);
        assert(q + ev.held.take(0).map_values(|h: Name| induced(ev, h)) =~= q);
        while j < e.held.len()
            invariant
                ev == e@,
                j <= e.held@.len(),
                links.holds(
                    m1 + ev.held.take(j as int),
                    q + ev.held.take(j as int).map_values(|h: Name| induced(ev, h)),
                ),
                after < distinct(m1 + ev.held.take(j as int)).len(),
                distinct(m1 + ev.held.take(j as int))[after as int] == ev.acquires,
            decreases e.held@.len() - j,
        {
            let h = &e.held[j];
            let ghost m2 = m1 + ev.held.take(j as int);
            let ghost q2 = q + ev.held.take(j as int).map_values(|h: Name| induced(ev, h));
            assert(ev.held[j as int] == h@);
            let before = links.intern(h, Ghost(m2), Ghost(q2));
            assert(m1 + ev.held.take(j + 1) =~= m2.push(h@));
            assert(m2.push(h@).drop_last() =~= m2);
            let c = Constraint {
                before: h.clone(),
                after: e.acquires.clone(),
                function: e.function.clone(),
                site: e.site.clone(),
            };
            assert(c@ == induced(ev, h@));
            links.link(before, after, c, Ghost(m2.push(h@)), Ghost(q2));
            assert(q + ev.held.take(j + 1).map_values(|h: Name| induced(ev, h)) =~= q2.push(c@));
            j = j + 1;
        }
        assert(ev.held.take(j as int) =~= ev.held);
        assert(evs.take(i + 1).drop_last() =~= evs.take(i as int));
        assert(evs.take(i + 1).last() == ev);
        i = i + 1;
    }
    assert(evs.take(i as int) =~= evs);
    links
}

pub proof fn lemma_class_edge(events: Seq<EventV>, u: usize, v: usize)
    requires
        classes(events).len() <= usize::MAX,
    ensures
        edge(class_graph(events), u, v) <==> u < classes(events).len() && v < classes(events).len()
            && has_edge(events, classes(events)[u as int], classes(events)[v as int]),
{
    let cls = classes(events);
    if u < cls.len() {
        let f = |j: usize| has_edge(events, cls[u as int], cls[j as int]);
        let all = nodes(cls.len());
        if v < cls.len() && f(v) {
            assert(all[v as int] == v);
            all.lemma_filter_contains(f, v as int);
        }
        if all.filter(f).contains(v) {
            all.lemma_filter_contains_rev(f, v);
            let r = all.filter(f);
            let i = choose|i: int| 0 <= i < r.len() && r[i] == v;
            all.lemma_filter_pred(f, i);
        }
        assert(class_graph(events)[u as int] == all.filter(f));
    }
}

/// The names of the classes `order`.
fn lock_order(
    links: &Links,
    order: &Vec<usize>,
    Ghost(m): Ghost<Seq<Name>>,
    Ghost(q): Ghost<Seq<ConstraintV>>,
) -> (r: Vec<String>)
    requires
        links.holds(m, q),
        forall|a: int| 0 <= a < order@.len() ==> (#[trigger] order@[a]) < distinct(m).len(),
    ensures
        names(r@) == order@.map_values(|a: usize| distinct(m)[a as int]),
{
    let mut out: Vec<String> = Vec::new();
    let mut k: usize = 0;
    while k < order.len()
        invariant
            links.holds(m, q),
            forall|a: int| 0 <= a < order@.len() ==> (#[trigger] order@[a]) < distinct(m).len(),
            k <= order@.len(),
            out@.len() == k,
            forall|a: int|
                0 <= a < k ==> (#[trigger] out@[a])@ == distinct(m)[order@[a] as int],
        decreases order@.len() - k,
    {
        let i: usize = order[k];
        assert(names(links.classes@)[i as int] == distinct(m)[i as int]);
        out.push(links.classes[i].clone());
        k = k + 1;
    }
    assert(names(out@) =~= order@.map_values(|a: usize| distinct(m)[a as int]));
    out
}

/// The constraints between the successive classes of a ring.
fn ring_witness(
    links: &Links,
    ring: &Vec<usize>,
    Ghost(evs): Ghost<Seq<EventV>>,
    Ghost(removed): Ghost<Seq<usize>>,
) -> (r: Vec<Constraint>)
    requires
        links.holds(mentioned(evs), all_constraints(evs)),
        is_ring(class_graph(evs), removed, ring@),
    ensures
        constraint_views(r@) == ring_constraints(evs, ring@),
{
    let ghost cls = classes(evs);
    let ghost g = class_graph(evs);
    let ghost want = ring_constraints(evs, ring@);
    let mut cycle: Vec<Constraint> = Vec::new();
    let mut k: usize = 0;
    while k < ring.len()
        invariant
            links.holds(mentioned(evs), all_constraints(evs)),
            cls == classes(evs),
            g == class_graph(evs),
            want == ring_constraints(evs, ring@),
            is_ring(g, removed, ring@),
            k <= ring@.len(),
            cycle@.len() == k,
            forall|a: int| 0 <= a < k ==> (#[trigger] cycle@[a])@ == want[a],
        decreases ring@.len() - k,
    {
        let from: usize = ring[k];
        let to: usize = if k + 1 < ring.len() {
            ring[k + 1]
        } else {
            ring[0]
        };
        assert(links.classes@.len() == cls.len());
        assert(links.classes.len() <= usize::MAX);
        assert(ring@[k as int] < g.len());
        assert(to == ring@[(k + 1) % ring@.len() as int] && edge(g, from, to)) by {
            if k + 1 < ring@.len() {
                vstd::arithmetic::div_mod::lemma_small_mod((k + 1) as nat, ring@.len());
                assert(edge(g, ring@[k as int], ring@[k + 1]));
            } else {
                vstd::arithmetic::div_mod::lemma_mod_self_0(ring@.len() as int);
            }
        }
        proof {
            lemma_class_edge(evs, from, to);
            lemma_constraint(evs, cls[from as int], cls[to as int]);
        }
        match links.mark(from, to, Ghost(mentioned(evs)), Ghost(all_constraints(evs))) {
            Some(c) => {
                cycle.push(links.found[c].clone());
            },
            None => {},
        }
        assert(want[k as int] == witness(evs, cls[from as int], cls[to as int]));
        k = k + 1;
    }
    assert(constraint_views(cycle@) =~= want);
    cycle
}

/// Builds the class-ordering graph and checks it for cycles.
pub fn analyze(prog: &Program) -> (r: Report)
    requires
        prog.wf(),
    ensures
        r@ == analysis(prog@),
{
    let ghost evs = prog@.events;
    let ghost cls = classes(evs);
    let ghost g = class_graph(evs);
    let ghost q = all_constraints(evs);
    let links = collect(&prog.events);
    let n: usize = links.classes.len();
    proof {
        lemma_links(&links, evs);
        lemma_distinct(mentioned(evs));
    }
    let mut i: usize = 0;
    while i < n
        invariant
            n == links.classes@.len(),
            n == cls.len(),
            cls == classes(evs),
            q == all_constraints(evs),
            g == class_graph(evs),
            evs == prog@.events,
            prog.wf(),
            links.holds(mentioned(evs), q),
            i <= n,
            forall|j: int| 0 <= j < i ==> !has_edge(evs, #[trigger] cls[j], cls[j]),
        decreases n - i,
    {
        assert(links.row_holds(i as int, cls, q));
        proof {
            lemma_constraint(evs, cls[i as int], cls[i as int]);
        }
        match links.mark(i, i, Ghost(mentioned(evs)), Ghost(q)) {
            Some(k) => {
                assert(first_self(evs, i as int));
                assert forall|a: int| first_self(evs, a) implies a == i by {
                    if a < i {
                        assert(!has_edge(evs, cls[a], cls[a]));
                    } else if i < a {
                        assert(!has_edge(evs, cls[i as int], cls[i as int]));
                    }
                }
                let mut cycle: Vec<Constraint> = Vec::new();
                cycle.push(links.found[k].clone());
                assert(constraint_views(cycle@) =~= seq![witness(evs, cls[i as int], cls[i as int])]);
                assert(names(links.classes@)[i as int] == cls[i as int]);
                let single = match prog.class_instances.get(links.classes[i].as_str()) {
                    Some(c) => *c < 2,
                    None => false,
                };
                assert(single == reentrant(prog@));
                return Report {
                    program: prog.name.clone(),
                    event_count: prog.events.len(),
                    class_count: n,
                    constraint_count: links.found.len(),
                    outcome: Outcome::Deadlock { cycle },
                    self_loop_single_instance: single,
                };
            },
            None => {},
        }
        i = i + 1;
    }
    assert(!exists|a: int| first_self(evs, a)) by {
        if exists|a: int| first_self(evs, a) {
            let a = choose|a: int| first_self(evs, a);
            assert(!has_edge(evs, cls[a], cls[a]));
        }
    }
    let order = removal(&links.afters);
    proof {
        lemma_removal_order(g);
    }
    let outcome = if order.len() == n {
        let sequence = lock_order(&links, &order, Ghost(mentioned(evs)), Ghost(q));
        Outcome::DeadlockFree { order: sequence }
    } else {
        let ring = find_cycle(&links.afters, &order);
        proof {
            lemma_stuck(g);
            lemma_ring(g, order@);
        }
        let cycle = ring_witness(&links, &ring, Ghost(evs), Ghost(order@));
        Outcome::Deadlock { cycle }
    };
    Report {
        program: prog.name.clone(),
        event_count: prog.events.len(),
        class_count: n,
        constraint_count: links.found.len(),
        outcome,
        self_loop_single_instance: false,
    }
}

/// One edge of a rendered graph; the names are already quoted.
pub struct DotEdge {
    pub from: String,
    pub to: String,
    pub on_cycle: bool,
}

/// The mathematical value of a [`DotEdge`].
pub struct DotEdgeV {
    pub from: Name,
    pub to: Name,
    pub on_cycle: bool,
}

impl View for DotEdge {
    type V = DotEdgeV;

    open spec fn view(&self) -> DotEdgeV {
        DotEdgeV { from: self.from@, to: self.to@, on_cycle: self.on_cycle }
    }
}

/// The values of a sequence of edges.
pub open spec fn dot_edge_views(v: Seq<DotEdge>) -> Seq<DotEdgeV> {
    v.map_values(|e: DotEdge| e@)
}

/// The line for one edge; an edge on the cycle is red.
pub open spec fn dot_line(e: DotEdgeV) -> Name {
    "  "@ + e.from + " -> "@ + e.to + if e.on_cycle {
        " [color=red, penwidth=2];\n"@
    } else {
        ";\n"@
    }
}

/// The lines for a sequence of edges.
pub open spec fn dot_lines(edges: Seq<DotEdgeV>) -> Name
    decreases edges.len(),
{
    if edges.len() == 0 {
        Seq::empty()
    } else {
        dot_lines(edges.drop_last()) + dot_line(edges.last())
    }
}

/// A graph in the DOT language.
pub open spec fn dot_document(edges: Seq<DotEdgeV>) -> Name {
    "digraph whorl {\n  rankdir=LR;\n  node [shape=box, fontname=\"monospace\"];\n"@ + dot_lines(
        edges,
    ) + "}\n"@
}

/// Writes the edges down in the DOT language.
pub fn render_dot(edges: &Vec<DotEdge>) -> (r: String)
    ensures
        r@ == dot_document(dot_edge_views(edges@)),
{
    let ghost es = dot_edge_views(edges@);
    let ghost head =
        "digraph whorl {\n  rankdir=LR;\n  node [shape=box, fontname=\"monospace\"];\n"@;
    let mut out = "digraph whorl {\n  rankdir=LR;\n  node [shape=box, fontname=\"monospace\"];\n".to_string();
    let mut i: usize = 0;
    assert(out@ =~= head + dot_lines(es.take(0)));
    while i < edges.len()
        invariant
            es == dot_edge_views(edges@),
            i <= edges@.len(),
            out@ == head + dot_lines(es.take(i as int)),
        decreases edges@.len() - i,
    {
        let e = &edges[i];
        assert(es[i as int] == e@);
        out.append("  ");
        out.append(e.from.as_str());
        out.append(" -> ");
        out.append(e.to.as_str());
        if e.on_cycle {
            out.append(" [color=red, penwidth=2];\n");
        } else {
            out.append(";\n");
        }
        assert(es.take(i + 1).drop_last() =~= es.take(i as int));
        assert(out@ =~= head + dot_lines(es.take(i + 1)));
        i = i + 1;
    }
    assert(es.take(i as int) =~= es);
    out.append("}\n");
    out
}

/// The classes that are held at some acquisition.
pub open spec fn held_classes(events: Seq<EventV>) -> Set<Name>
    decreases events.len(),
{
    if events.len() == 0 {
        Set::empty()
    } else {
        held_classes(events.drop_last()).union(events.last().held.to_set())
    }
}

/// The classes that are acquired while `before` is held.
pub open spec fn classes_after(events: Seq<EventV>, before: Name) -> Set<Name>
    decreases events.len(),
{
    if events.len() == 0 {
        Set::empty()
    } else if events.last().held.contains(before) {
        classes_after(events.drop_last(), before).insert(events.last().acquires)
    } else {
        classes_after(events.drop_last(), before)
    }
}

/// Some constraint of the ring orders `before` before `after`.
pub open spec fn ring_has(cycle: Seq<ConstraintV>, before: Name, after: Name) -> bool {
    exists|i: int|
        0 <= i < cycle.len() && (#[trigger] cycle[i]).before == before && cycle[i].after == after
}

/// The reported cycle goes from `before` to `after`.
pub open spec fn on_cycle(events: Seq<EventV>, before: Name, after: Name) -> bool {
    match verdict(events) {
        OutcomeV::Deadlock { cycle } => ring_has(cycle, before, after),
        OutcomeV::DeadlockFree { order } => false,
    }
}

/// The rendered edges from the classes `befores`, in ascending order of the
/// later class.
pub open spec fn dot_edges(events: Seq<EventV>, befores: Seq<Name>) -> Seq<DotEdgeV>
    decreases befores.len(),
{
    if befores.len() == 0 {
        Seq::empty()
    } else {
        let b = befores.last();
        dot_edges(events, befores.drop_last()) + sorted(classes_after(events, b)).map_values(
            |a: Name|
                DotEdgeV { from: quoted(b), to: quoted(a), on_cycle: on_cycle(events, b, a) },
        )
    }
}

fn held_set(events: &Vec<Event>) -> (r: NameSet)
    ensures
        r.wf(),
        r@ == held_classes(event_views(events@)),
{
    let ghost evs = event_views(events@);
    let mut out = NameSet::new();
    let mut i: usize = 0;
    assert(evs.take(0) =~= Seq::empty());
    while i < events.len()
        invariant
            evs == event_views(events@),
            i <= events@.len(),
            out.wf(),
            out@ == held_classes(evs.take(i as int)),
        decreases events@.len() - i,
    {
        let ghost held = evs[i as int].held;
        let ghost before = out@;
        let mut j: usize = 0;
        assert(before.union(held.take(0).to_set()) =~= before);
        while j < events[i].held.len()
            invariant
                evs == event_views(events@),
                i < events@.len(),
                held == evs[i as int].held,
                j <= held.len(),
                out.wf(),
                out@ == before.union(held.take(j as int).to_set()),
            decreases held.len() - j,
        {
            let _ = out.insert(events[i].held[j].as_str());
            proof {
                assert(held.take(j + 1) =~= held.take(j as int).push(held[j as int]));
                assert forall|x: Name| held.take(j + 1).contains(x) == (held.take(
                    j as int,
                ).contains(x) || x == held[j as int]) by {
                    lemma_push_contains(held.take(j as int), held[j as int], x);
                }
                assert(out@ =~= before.union(held.take(j + 1).to_set()));
            }
            j = j + 1;
        }
        assert(held.take(j as int) =~= held);
        assert(evs.take(i + 1).drop_last() =~= evs.take(i as int));
        i = i + 1;
    }
    assert(evs.take(i as int) =~= evs);
    out
}

fn after_set(events: &Vec<Event>, before: &str) -> (r: NameSet)
    ensures
        r.wf(),
        r@ == classes_after(event_views(events@), before@),
{
    let ghost evs = event_views(events@);
    let mut out = NameSet::new();
    let mut i: usize = 0;
    assert(evs.take(0) =~= Seq::empty());
    while i < events.len()
        invariant
            evs == event_views(events@),
            i <= events@.len(),
            out.wf(),
            out@ == classes_after(evs.take(i as int), before@),
        decreases events@.len() - i,
    {
        assert(evs.take(i + 1).drop_last() =~= evs.take(i as int));
        if has_name(&events[i].held, before) {
            let _ = out.insert(events[i].acquires.as_str());
        }
        i = i + 1;
    }
    assert(evs.take(i as int) =~= evs);
    out
}

fn cycle_has(outcome: &Outcome, before: &str, after: &str) -> (r: bool)
    ensures
        r == match outcome@ {
            OutcomeV::Deadlock { cycle } => ring_has(cycle, before@, after@),
            OutcomeV::DeadlockFree { order } => false,
        },
{
    match outcome {
        Outcome::DeadlockFree { order } => false,
        Outcome::Deadlock { cycle } => {
            let ghost q = constraint_views(cycle@);
            let mut i: usize = 0;
            while i < cycle.len()
                invariant
                    q == constraint_views(cycle@),
                    outcome@ == (OutcomeV::Deadlock { cycle: q }),
                    i <= cycle@.len(),
                    forall|j: int|
                        0 <= j < i ==> !((#[trigger] q[j]).before == before@ && q[j].after
                            == after@),
                decreases cycle@.len() - i,
            {
                assert(q[i as int] == cycle@[i as int]@);
                if str_eq(cycle[i].before.as_str(), before) && str_eq(
                    cycle[i].after.as_str(),
                    after,
                ) {
                    assert(ring_has(q, before@, after@));
                    return true;
                }
                i = i + 1;
            }
            false
        },
    }
}

/// Renders the class-ordering graph as Graphviz DOT, with the edges of a
/// reported deadlock cycle highlighted in red. The edges are in ascending order
/// of their classes; the verdict itself is that of [`analyze`].
pub fn to_dot(prog: &Program) -> (r: String)
    requires
        prog.wf(),
    ensures
        r@ == dot_document(dot_edges(prog@.events, sorted(held_classes(prog@.events)))),
{
    let ghost evs = prog@.events;
    let outcome = analyze(prog).outcome;
    let befores = held_set(&prog.events).to_names();
    let ghost bs = names(befores@);
    let mut edges: Vec<DotEdge> = Vec::new();
    let mut i: usize = 0;
    assert(dot_edge_views(edges@) =~= dot_edges(evs, bs.take(0)));
    while i < befores.len()
        invariant
            evs == prog@.events,
            outcome@ == verdict(evs),
            bs == names(befores@),
            i <= befores@.len(),
            dot_edge_views(edges@) == dot_edges(evs, bs.take(i as int)),
        decreases befores@.len() - i,
    {
        let b = befores[i].as_str();
        let afters = after_set(&prog.events, b).to_names();
        let ghost prior = dot_edge_views(edges@);
        let ghost row = sorted(classes_after(evs, b@)).map_values(
            |a: Name|
                DotEdgeV { from: quoted(b@), to: quoted(a), on_cycle: on_cycle(evs, b@, a) },
        );
        let mut j: usize = 0;
        assert(prior + row.take(0) =~= prior);
        while j < afters.len()
            invariant
                evs == prog@.events,
                outcome@ == verdict(evs),
                names(afters@) == sorted(classes_after(evs, b@)),
                row == sorted(classes_after(evs, b@)).map_values(
                    |a: Name|
                        DotEdgeV {
                            from: quoted(b@),
                            to: quoted(a),
                            on_cycle: on_cycle(evs, b@, a),
                        },
                ),
                j <= afters@.len(),
                dot_edge_views(edges@) == prior + row.take(j as int),
            decreases afters@.len() - j,
        {
            let a = afters[j].as_str();
            assert(names(afters@)[j as int] == a@);
            let e = DotEdge { from: quote(b), to: quote(a), on_cycle: cycle_has(&outcome, b, a) };
            assert(e@ == row[j as int]);
            assert(row.take(j + 1) =~= row.take(j as int).push(e@));
            edges.push(e);
            assert(dot_edge_views(edges@) =~= (prior + row.take(j as int)).push(e@));
            assert(dot_edge_views(edges@) =~= prior + row.take(j + 1));
            j = j + 1;
        }
        assert(row.take(j as int) =~= row);
        assert(bs.take(i + 1).drop_last() =~= bs.take(i as int));
        assert(bs.take(i + 1).last() == b@);
        i = i + 1;
    }
    assert(bs.take(i as int) =~= bs);
    render_dot(&edges)
}

}
