//! What a verdict means.
//!
//! The class-ordering graph of a program has a cycle or a topological order,
//! never both. A program with such an order can never reach a circular wait,
//! however its threads interleave.

use vstd::prelude::*;

use crate::graph::{
    edge, is_ring, kahn_inv, lemma_removal_order, lemma_ring, lemma_stuck, nodes, removal_order,
    ring_of, wf_graph,
};
use crate::model::{has_edge, EventV};
use crate::solver::{
    class_graph, classes, first_self, induced, lemma_class_edge, lemma_distinct, lemma_witness,
    mentioned, verdict, witness, ConstraintV, OutcomeV,
};
use crate::text::Name;

verus! {

/// `c` is a closed walk along ordering edges.
pub open spec fn is_cycle(events: Seq<EventV>, c: Seq<Name>) -> bool {
    &&& c.len() > 0
    &&& forall|i: int| 0 <= i < c.len() - 1 ==> has_edge(events, #[trigger] c[i], c[i + 1])
    &&& has_edge(events, c.last(), c[0])
}

/// `order` lists every class once, and every ordering edge leads forward in it.
pub open spec fn is_lock_order(events: Seq<EventV>, order: Seq<Name>) -> bool {
    &&& order.no_duplicates()
    &&& forall|x: Name| #[trigger] order.contains(x) <==> mentioned(events).contains(x)
    &&& forall|b: Name, a: Name| #[trigger]
        has_edge(events, b, a) ==> exists|i: int, j: int|
            0 <= i < j < order.len() && #[trigger] order[i] == b && #[trigger] order[j] == a
}

/// `cycle` is a ring of constraints, each induced by an event.
pub open spec fn is_witnessed_ring(events: Seq<EventV>, cycle: Seq<ConstraintV>) -> bool {
    &&& cycle.len() > 0
    &&& forall|i: int|
        0 <= i < cycle.len() - 1 ==> (#[trigger] cycle[i]).after == cycle[i + 1].before
    &&& cycle.last().after == cycle[0].before
    &&& forall|i: int| 0 <= i < cycle.len() ==> #[trigger] is_induced(events, cycle[i])
}

/// Some event acquires `c.after` at `c.site` while it holds `c.before`.
pub open spec fn is_induced(events: Seq<EventV>, c: ConstraintV) -> bool {
    exists|i: int|
        0 <= i < events.len() && (#[trigger] events[i]).held.contains(c.before) && c == induced(
            events[i],
            c.before,
        )
}

proof fn lemma_mentions(events: Seq<EventV>, i: int, x: Name)
    requires
        0 <= i < events.len(),
        events[i].acquires == x || events[i].held.contains(x),
    ensures
        mentioned(events).contains(x),
    decreases events.len(),
{
    let e = events.last();
    let m = mentioned(events.drop_last());
    if i < events.len() - 1 {
        assert(events.drop_last()[i] == events[i]);
        lemma_mentions(events.drop_last(), i, x);
        let k = choose|k: int| 0 <= k < m.len() && m[k] == x;
        assert(mentioned(events)[k] == x);
    } else if e.acquires == x {
        assert(mentioned(events)[m.len() as int] == x);
    } else {
        let k = choose|k: int| 0 <= k < e.held.len() && e.held[k] == x;
        assert(mentioned(events)[m.len() + 1 + k] == x);
    }
}

proof fn lemma_edge_classes(events: Seq<EventV>, b: Name, a: Name) -> (r: (int, int))
    requires
        has_edge(events, b, a),
    ensures
        0 <= r.0 < classes(events).len(),
        0 <= r.1 < classes(events).len(),
        classes(events)[r.0] == b,
        classes(events)[r.1] == a,
{
    let cls = classes(events);
    let k = choose|k: int|
        0 <= k < events.len() && (#[trigger] events[k]).acquires == a && events[k].held.contains(b);
    lemma_mentions(events, k, a);
    lemma_mentions(events, k, b);
    lemma_distinct(mentioned(events));
    assert(cls.contains(a) && cls.contains(b));
    let i = choose|i: int| 0 <= i < cls.len() && cls[i] == b;
    let j = choose|j: int| 0 <= j < cls.len() && cls[j] == a;
    (i, j)
}

proof fn lemma_class_graph_wf(events: Seq<EventV>)
    requires
        classes(events).len() <= usize::MAX,
    ensures
        wf_graph(class_graph(events)),
{
    let cls = classes(events);
    let g = class_graph(events);
    let all = nodes(cls.len());
    assert forall|u: int, i: int| 0 <= u < g.len() && 0 <= i < g[u].len() implies (
    #[trigger] g[u][i]) < g.len() by {
        let f = |j: usize| has_edge(events, cls[u], cls[j as int]);
        assert(g[u] == all.filter(f));
        lemma_filter_ascending(cls.len(), f);
        assert(all.filter(f)[i] == g[u][i]);
    }
    assert forall|u: int, i: int, j: int| 0 <= u < g.len() && 0 <= i < j < g[u].len() implies (
    #[trigger] g[u][i]) < (#[trigger] g[u][j]) by {
        let f = |j: usize| has_edge(events, cls[u], cls[j as int]);
        assert(g[u] == all.filter(f));
        lemma_filter_ascending(cls.len(), f);
        assert(all.filter(f)[i] < all.filter(f)[j]);
    }
}

proof fn lemma_filter_ascending(n: nat, f: spec_fn(usize) -> bool)
    requires
        n <= usize::MAX,
    ensures
        forall|i: int| 0 <= i < nodes(n).filter(f).len() ==> (#[trigger] nodes(n).filter(f)[i]) < n,
        forall|i: int, j: int|
            0 <= i < j < nodes(n).filter(f).len() ==> (#[trigger] nodes(n).filter(f)[i]) < (
            #[trigger] nodes(n).filter(f)[j]),
    decreases n,
{
    reveal(Seq::filter);
    if n > 0 {
        let k = (n - 1) as nat;
        lemma_filter_ascending(k, f);
        assert(nodes(n).drop_last() =~= nodes(k));
        let q = nodes(k).filter(f);
        let r = nodes(n).filter(f);
        assert(r == if f(k as usize) {
            q.push(k as usize)
        } else {
            q
        });
        assert forall|i: int| 0 <= i < r.len() implies (#[trigger] r[i]) < n by {
            if i < q.len() {
                assert(q[i] < k);
            }
        }
        assert forall|i: int, j: int| 0 <= i < j < r.len() implies (#[trigger] r[i]) < (
        #[trigger] r[j]) by {
            assert(q[i] < k);
            if j < q.len() {
                assert(q[i] < q[j]);
            }
        }
    }
}

/// The order of a deadlock-free verdict is a lock order.
pub proof fn order_respects_every_edge(events: Seq<EventV>)
    requires
        classes(events).len() <= usize::MAX,
    ensures
        match verdict(events) {
            OutcomeV::DeadlockFree { order } => is_lock_order(events, order),
            OutcomeV::Deadlock { cycle } => true,
        },
{
    if let OutcomeV::DeadlockFree { order } = verdict(events) {
        let cls = classes(events);
        let g = class_graph(events);
        let q = removal_order(g);
        lemma_class_graph_wf(events);
        lemma_removal_order(g);
        lemma_distinct(mentioned(events));
        assert(order.no_duplicates()) by {
            assert forall|i: int, j: int|
                0 <= i < order.len() && 0 <= j < order.len() && i != j implies order[i]
                != order[j] by {
                assert(q[i] != q[j]);
                assert(q[i] < g.len() && q[j] < g.len());
            }
        }
        assert forall|x: Name| #[trigger] order.contains(x) <==> mentioned(events).contains(x) by {
            assert(cls.contains(x) <==> mentioned(events).contains(x));
            if order.contains(x) {
                let i = choose|i: int| 0 <= i < order.len() && order[i] == x;
                assert(q[i] < g.len());
                assert(cls[q[i] as int] == x);
            }
            if cls.contains(x) {
                let i = choose|i: int| 0 <= i < cls.len() && cls[i] == x;
                assert(q.contains(i as usize));
                let k = choose|k: int| 0 <= k < q.len() && q[k] == i as usize;
                assert(order[k] == x);
            }
        }
        assert forall|b: Name, a: Name| #[trigger] has_edge(events, b, a) implies exists|
            i: int,
            j: int,
        |
            0 <= i < j < order.len() && #[trigger] order[i] == b && #[trigger] order[j] == a by {
            let (u, v) = lemma_edge_classes(events, b, a);
            lemma_class_edge(events, u as usize, v as usize);
            assert(q.contains(v as usize));
            let j = choose|j: int| 0 <= j < q.len() && q[j] == v as usize;
            assert(edge(g, u as usize, q[j]));
            assert(kahn_inv(g, q, q.len()));
            let i = choose|i: int| 0 <= i < j && #[trigger] q[i] == u as usize;
            assert(order[i] == b);
            assert(order[j] == a);
        }
    }
}

/// The cycle of a deadlock verdict is a closed ring, and each of its
/// constraints is induced by an event.
pub proof fn cycle_is_witnessed(events: Seq<EventV>)
    requires
        classes(events).len() <= usize::MAX,
    ensures
        match verdict(events) {
            OutcomeV::DeadlockFree { order } => true,
            OutcomeV::Deadlock { cycle } => is_witnessed_ring(events, cycle),
        },
{
    if let OutcomeV::Deadlock { cycle } = verdict(events) {
        let cls = classes(events);
        let g = class_graph(events);
        if exists|i: int| first_self(events, i) {
            let i = choose|i: int| first_self(events, i);
            lemma_witness(events, cls[i], cls[i]);
            assert(cycle[0] == witness(events, cls[i], cls[i]));
        } else {
            let q = removal_order(g);
            let ring = ring_of(g, q);
            lemma_class_graph_wf(events);
            lemma_stuck(g);
            lemma_ring(g, q);
            assert forall|k: int| 0 <= k < ring.len() implies #[trigger] is_induced(
                events,
                cycle[k],
            ) && cycle[k].before == cls[ring[k] as int] && cycle[k].after == cls[ring[(k + 1)
                % ring.len() as int] as int] by {
                lemma_ring_edge(g, q, ring, k);
                let v = ring[(k + 1) % ring.len() as int];
                lemma_class_edge(events, ring[k], v);
                lemma_witness(events, cls[ring[k] as int], cls[v as int]);
            }
            assert forall|i: int| 0 <= i < cycle.len() - 1 implies (#[trigger] cycle[i]).after
                == cycle[i + 1].before by {
                vstd::arithmetic::div_mod::lemma_small_mod((i + 1) as nat, ring.len());
                assert(is_induced(events, cycle[i]));
                assert(is_induced(events, cycle[i + 1]));
            }
            assert(cycle.last().after == cycle[0].before) by {
                vstd::arithmetic::div_mod::lemma_mod_self_0(ring.len() as int);
                assert(is_induced(events, cycle[0]));
                assert(is_induced(events, cycle[ring.len() - 1]));
            }
        }
    }
}

proof fn lemma_ring_edge(g: Seq<Seq<usize>>, removed: Seq<usize>, ring: Seq<usize>, k: int)
    requires
        is_ring(g, removed, ring),
        0 <= k < ring.len(),
    ensures
        0 <= (k + 1) % ring.len() as int,
        (k + 1) % (ring.len() as int) < ring.len(),
        edge(g, ring[k], ring[(k + 1) % ring.len() as int]),
{
    if k + 1 < ring.len() {
        vstd::arithmetic::div_mod::lemma_small_mod((k + 1) as nat, ring.len());
    } else {
        vstd::arithmetic::div_mod::lemma_mod_self_0(ring.len() as int);
    }
}

/// The classes of a reported ring are ordered one after the other.
pub proof fn lemma_ring_ordered(events: Seq<EventV>, k: int)
    requires
        classes(events).len() <= usize::MAX,
        verdict(events) is Deadlock,
        !exists|i: int| first_self(events, i),
        0 <= k < verdict(events)->cycle.len(),
    ensures
        ({
            let cls = classes(events);
            let g = class_graph(events);
            let ring = ring_of(g, removal_order(g));
            has_edge(
                events,
                cls[ring[k] as int],
                cls[ring[(k + 1) % ring.len() as int] as int],
            )
        }),
{
    let g = class_graph(events);
    let q = removal_order(g);
    let ring = ring_of(g, q);
    lemma_class_graph_wf(events);
    lemma_stuck(g);
    lemma_ring(g, q);
    lemma_ring_edge(g, q, ring, k);
    lemma_class_edge(events, ring[k], ring[(k + 1) % ring.len() as int]);
}

/// A program is found to deadlock if and only if its ordering edges close a
/// cycle.
pub proof fn deadlock_iff_cycle(events: Seq<EventV>)
    requires
        classes(events).len() <= usize::MAX,
    ensures
        verdict(events) is Deadlock <==> exists|c: Seq<Name>| is_cycle(events, c),
{
    order_respects_every_edge(events);
    cycle_is_witnessed(events);
    match verdict(events) {
        OutcomeV::Deadlock { cycle } => {
            let c = cycle.map_values(|k: ConstraintV| k.before);
            assert forall|i: int| 0 <= i < c.len() - 1 implies has_edge(
                events,
                #[trigger] c[i],
                c[i + 1],
            ) by {
                assert(is_induced(events, cycle[i]));
                lemma_induced_edge(events, cycle[i]);
            }
            let last = cycle.len() - 1;
            assert(is_induced(events, cycle[last]));
            lemma_induced_edge(events, cycle[last]);
            assert(is_cycle(events, c));
        },
        OutcomeV::DeadlockFree { order } => {
            if exists|c: Seq<Name>| is_cycle(events, c) {
                let c = choose|c: Seq<Name>| is_cycle(events, c);
                lemma_no_cycle(events, order, c);
            }
        },
    }
}

proof fn lemma_induced_edge(events: Seq<EventV>, c: ConstraintV)
    requires
        is_induced(events, c),
    ensures
        has_edge(events, c.before, c.after),
{
    let i = choose|i: int|
        0 <= i < events.len() && (#[trigger] events[i]).held.contains(c.before) && c == induced(
            events[i],
            c.before,
        );
    assert(events[i].acquires == c.after);
}

/// The place of a class in a lock order.
pub open spec fn place(order: Seq<Name>, x: Name) -> int {
    order.index_of(x)
}

pub proof fn lemma_edge_forward(events: Seq<EventV>, order: Seq<Name>, b: Name, a: Name)
    requires
        is_lock_order(events, order),
        has_edge(events, b, a),
    ensures
        0 <= place(order, b) < place(order, a),
{
    let (i, j) = choose|i: int, j: int|
        0 <= i < j < order.len() && #[trigger] order[i] == b && #[trigger] order[j] == a;
    assert(order[order.index_of(b)] == b);
    assert(order[order.index_of(a)] == a);
    assert(order.index_of(b) == i);
    assert(order.index_of(a) == j);
}

proof fn lemma_climb(events: Seq<EventV>, order: Seq<Name>, c: Seq<Name>, k: int)
    requires
        is_lock_order(events, order),
        is_cycle(events, c),
        0 <= k < c.len(),
    ensures
        place(order, c[0]) + k <= place(order, c[k]),
    decreases k,
{
    if k > 0 {
        lemma_climb(events, order, c, k - 1);
        assert(has_edge(events, c[k - 1], c[k - 1 + 1]));
        lemma_edge_forward(events, order, c[k - 1], c[k]);
    }
}

proof fn lemma_no_cycle(events: Seq<EventV>, order: Seq<Name>, c: Seq<Name>)
    requires
        is_lock_order(events, order),
    ensures
        !is_cycle(events, c),
{
    if is_cycle(events, c) {
        lemma_climb(events, order, c, c.len() - 1);
        lemma_edge_forward(events, order, c.last(), c[0]);
    }
}

/// A thread that holds locks of the classes `held` and waits for one of the
/// class `wants`.
pub struct Waiting {
    pub held: Set<Name>,
    pub wants: Name,
}

/// An event accounts for the thread: it acquires the class that the thread
/// waits for while it holds every class that the thread holds.
pub open spec fn accounted(events: Seq<EventV>, w: Waiting) -> bool {
    exists|i: int|
        0 <= i < events.len() && (#[trigger] events[i]).acquires == w.wants && forall|x: Name|
            w.held.contains(x) ==> events[i].held.contains(x)
}

/// Each thread waits for a lock of a class that the next thread holds, and the
/// last waits for one that the first holds.
pub open spec fn circular_wait(ring: Seq<Waiting>) -> bool {
    &&& ring.len() > 0
    &&& forall|i: int|
        0 <= i < ring.len() - 1 ==> ring[i + 1].held.contains((#[trigger] ring[i]).wants)
    &&& ring[0].held.contains(ring.last().wants)
}

/// Havender's theorem: no set of threads of a deadlock-free program can form a
/// circular wait.
pub proof fn deadlock_free_never_waits_in_a_circle(events: Seq<EventV>, ring: Seq<Waiting>)
    requires
        classes(events).len() <= usize::MAX,
        verdict(events) is DeadlockFree,
        forall|i: int| 0 <= i < ring.len() ==> accounted(events, #[trigger] ring[i]),
    ensures
        !circular_wait(ring),
{
    if circular_wait(ring) {
        let c = ring.map_values(|w: Waiting| w.wants);
        assert forall|i: int| 0 <= i < c.len() - 1 implies has_edge(
            events,
            #[trigger] c[i],
            c[i + 1],
        ) by {
            lemma_wait_edge(events, ring[i].wants, ring[i + 1]);
        }
        lemma_wait_edge(events, ring.last().wants, ring[0]);
        assert(is_cycle(events, c));
        deadlock_iff_cycle(events);
    }
}

proof fn lemma_wait_edge(events: Seq<EventV>, x: Name, w: Waiting)
    requires
        accounted(events, w),
        w.held.contains(x),
    ensures
        has_edge(events, x, w.wants),
{
    let i = choose|i: int|
        0 <= i < events.len() && (#[trigger] events[i]).acquires == w.wants && forall|x: Name|
            w.held.contains(x) ==> events[i].held.contains(x);
    assert(events[i].held.contains(x));
}

/// A deadlock found in part of the events is a deadlock of the whole: more
/// edges never take a cycle away.
pub proof fn partial_deadlock_is_real(part: Seq<EventV>, whole: Seq<EventV>)
    requires
        classes(part).len() <= usize::MAX,
        classes(whole).len() <= usize::MAX,
        forall|b: Name, a: Name| #[trigger] has_edge(part, b, a) ==> has_edge(whole, b, a),
        verdict(part) is Deadlock,
    ensures
        verdict(whole) is Deadlock,
{
    deadlock_iff_cycle(part);
    deadlock_iff_cycle(whole);
    let c = choose|c: Seq<Name>| is_cycle(part, c);
    assert forall|i: int| 0 <= i < c.len() - 1 implies has_edge(
        whole,
        #[trigger] c[i],
        c[i + 1],
    ) by {
        assert(has_edge(part, c[i], c[i + 1]));
    }
    assert(is_cycle(whole, c));
}

}
