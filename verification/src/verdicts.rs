//! What is said of a program, held against the program.
//!
//! The laws speak of the events themselves: which classes occur in them, and
//! which class is taken while which other is held.

use vstd::prelude::*;

use crate::graph::{removal_order, ring_of};
use crate::havender::{
    cycle_is_witnessed, deadlock_iff_cycle, is_cycle, is_induced, is_witnessed_ring,
    lemma_ring_ordered, order_respects_every_edge,
};
use crate::inherit::lemma_push_contains;
use crate::model::{has_edge, EventV, ProgramV};
use crate::ordset::{ascending, lemma_sorted_set, sorted};
use crate::parser::parsed;
use crate::report::{base_name, finding, program_of_source};
use crate::semantics::{circular, possible_wait, WaitV};
use crate::solver::{
    all_constraints, analysis, class_graph, classes, classes_after, dot_document, dot_edges,
    dot_lines, first_constraints, first_of, first_self, held_classes, induced, lemma_constraint,
    lemma_distinct, lemma_witness, mentioned, on_cycle, reentrant, verdict, witness, ConstraintV,
    DotEdgeV, OutcomeV,
};
use crate::source::safe_sources_never_deadlock;
use crate::tables::tables_of;
use crate::text::{lex_lt, Name};
use crate::unicode::quoted;

verus! {

/// Event `i` takes the class `a` while `b` is held.
pub open spec fn orders_at(events: Seq<EventV>, i: int, b: Name, a: Name) -> bool {
    0 <= i < events.len() && events[i].acquires == a && events[i].held.contains(b)
}

/// The class is taken or held at event `i`.
pub open spec fn occurs_at(events: Seq<EventV>, i: int, x: Name) -> bool {
    0 <= i < events.len() && (events[i].acquires == x || events[i].held.contains(x))
}

/// The class occurs in the events.
pub open spec fn occurs(events: Seq<EventV>, x: Name) -> bool {
    exists|i: int| #[trigger] occurs_at(events, i, x)
}

/// Some event takes the class `a` while `b` is held.
pub open spec fn is_ordered(events: Seq<EventV>, b: Name, a: Name) -> bool {
    exists|i: int| #[trigger] orders_at(events, i, b, a)
}

/// A walk in a circle: each class is held where the next is taken.
pub open spec fn goes_round(events: Seq<EventV>, c: Seq<Name>) -> bool {
    &&& c.len() > 0
    &&& forall|k: int| 0 <= k < c.len() - 1 ==> is_ordered(events, #[trigger] c[k], c[k + 1])
    &&& is_ordered(events, c.last(), c[0])
}

proof fn lemma_edge(events: Seq<EventV>, b: Name, a: Name)
    ensures
        has_edge(events, b, a) <==> is_ordered(events, b, a),
{
    if has_edge(events, b, a) {
        let i = choose|i: int|
            0 <= i < events.len() && (#[trigger] events[i]).acquires == a
                && events[i].held.contains(b);
        assert(orders_at(events, i, b, a));
    }
    if is_ordered(events, b, a) {
        let i = choose|i: int| orders_at(events, i, b, a);
        assert(events[i].acquires == a);
    }
}

proof fn lemma_round(events: Seq<EventV>, c: Seq<Name>)
    ensures
        is_cycle(events, c) <==> goes_round(events, c),
{
    if is_cycle(events, c) {
        assert forall|k: int| 0 <= k < c.len() - 1 implies is_ordered(
            events,
            #[trigger] c[k],
            c[k + 1],
        ) by {
            assert(has_edge(events, c[k], c[k + 1]));
            lemma_edge(events, c[k], c[k + 1]);
        }
        lemma_edge(events, c.last(), c[0]);
    }
    if goes_round(events, c) {
        assert forall|k: int| 0 <= k < c.len() - 1 implies has_edge(
            events,
            #[trigger] c[k],
            c[k + 1],
        ) by {
            assert(is_ordered(events, c[k], c[k + 1]));
            lemma_edge(events, c[k], c[k + 1]);
        }
        lemma_edge(events, c.last(), c[0]);
    }
}

/// A program counts as good if and only if its analysis is complete and no
/// classes are taken in a circle.
pub proof fn programs_pass_iff_they_are_safe(p: ProgramV)
    requires
        classes(p.events).len() <= usize::MAX,
    ensures
        !finding(p).bad <==> p.incomplete is None && !exists|c: Seq<Name>| goes_round(p.events, c),
{
    deadlock_iff_cycle(p.events);
    if exists|c: Seq<Name>| goes_round(p.events, c) {
        let c = choose|c: Seq<Name>| goes_round(p.events, c);
        lemma_round(p.events, c);
    }
    if exists|c: Seq<Name>| is_cycle(p.events, c) {
        let c = choose|c: Seq<Name>| is_cycle(p.events, c);
        lemma_round(p.events, c);
    }
}

/// What is not reported never deadlocks: a source file without a finding, however its tasks
/// and interrupt handlers run.
pub proof fn sources_that_pass_never_deadlock(src: Name, path: Name, p: ProgramV, ring: Seq<WaitV>)
    requires
        program_of_source(src, path) == Ok::<ProgramV, Name>(p),
        classes(p.events).len() <= usize::MAX,
        !finding(p).bad,
        forall|i: int|
            0 <= i < ring.len() ==> possible_wait(
                tables_of(parsed(src)->Ok_0),
                #[trigger] ring[i],
            ),
    ensures
        !circular(ring),
{
    let items = parsed(src)->Ok_0;
    safe_sources_never_deadlock(src, items, base_name(path), p, ring);
}

pub proof fn lemma_mentioned(events: Seq<EventV>, x: Name)
    ensures
        mentioned(events).contains(x) <==> occurs(events, x),
    decreases events.len(),
{
    let m = mentioned(events);
    if events.len() > 0 {
        let r = events.drop_last();
        let e = events.last();
        let before = mentioned(r);
        lemma_mentioned(r, x);
        assert(m == before.push(e.acquires) + e.held);
        if m.contains(x) {
            let k = choose|k: int| 0 <= k < m.len() && m[k] == x;
            if k < before.len() {
                assert(before[k] == x);
                let i = choose|i: int| #[trigger] occurs_at(r, i, x);
                assert(occurs_at(events, i, x));
            } else {
                if k > before.len() {
                    assert(e.held[k - before.len() - 1] == x);
                }
                assert(occurs_at(events, events.len() - 1, x));
            }
        }
        if occurs(events, x) {
            let i = choose|i: int| #[trigger] occurs_at(events, i, x);
            if i < r.len() {
                assert(occurs_at(r, i, x));
                let k = choose|k: int| 0 <= k < before.len() && before[k] == x;
                assert(m[k] == x);
            } else if e.acquires == x {
                assert(m[before.len() as int] == x);
            } else {
                let k = choose|k: int| 0 <= k < e.held.len() && e.held[k] == x;
                assert(m[before.len() + 1 + k] == x);
            }
        }
    }
}

/// A lock order lists every class that occurs, once, and a class before every
/// class that is taken while it is held.
pub proof fn orders_list_every_class(events: Seq<EventV>)
    requires
        classes(events).len() <= usize::MAX,
    ensures
        match verdict(events) {
            OutcomeV::DeadlockFree { order } => {
                &&& order.no_duplicates()
                &&& forall|x: Name| #[trigger] order.contains(x) <==> occurs(events, x)
                &&& forall|i: int, j: int, k: int|
                    0 <= i < order.len() && 0 <= j < order.len() && #[trigger] orders_at(
                        events,
                        k,
                        #[trigger] order[i],
                        #[trigger] order[j],
                    ) ==> i < j
            },
            OutcomeV::Deadlock { cycle } => true,
        },
{
    order_respects_every_edge(events);
    if let OutcomeV::DeadlockFree { order } = verdict(events) {
        assert forall|x: Name| #[trigger] order.contains(x) <==> occurs(events, x) by {
            lemma_mentioned(events, x);
        }
        assert forall|i: int, j: int, k: int|
            0 <= i < order.len() && 0 <= j < order.len() && #[trigger] orders_at(
                events,
                k,
                #[trigger] order[i],
                #[trigger] order[j],
            ) implies i < j by {
            lemma_edge(events, order[i], order[j]);
            let (u, v) = choose|u: int, v: int|
                0 <= u < v < order.len() && #[trigger] order[u] == order[i] && #[trigger] order[v]
                    == order[j];
            assert(u == i && v == j);
        }
    }
}

/// Event `i` is the first that takes `a` while `b` is held.
pub open spec fn first_orders_at(events: Seq<EventV>, i: int, b: Name, a: Name) -> bool {
    orders_at(events, i, b, a) && forall|j: int| 0 <= j < i ==> !#[trigger] orders_at(
        events,
        j,
        b,
        a,
    )
}

proof fn lemma_first_event(events: Seq<EventV>, b: Name, a: Name) -> (i: int)
    requires
        has_edge(events, b, a),
    ensures
        first_orders_at(events, i, b, a),
        witness(events, b, a) == (ConstraintV {
            before: b,
            after: a,
            function: events[i].function,
            site: events[i].site,
        }),
    decreases events.len(),
{
    let r = events.drop_last();
    let e = events.last();
    let row = e.held.map_values(|h: Name| induced(e, h));
    let q = all_constraints(r);
    assert(all_constraints(events) == q + row);
    lemma_constraint(events, b, a);
    lemma_constraint(r, b, a);
    lemma_first_concat(q, row, b, a);
    lemma_edge(r, b, a);
    if has_edge(r, b, a) {
        let i = lemma_first_event(r, b, a);
        assert forall|j: int| 0 <= j < i implies !#[trigger] orders_at(events, j, b, a) by {
            assert(!orders_at(r, j, b, a));
        }
        i
    } else {
        let i = events.len() - 1;
        lemma_edge(events, b, a);
        let k = choose|k: int| orders_at(events, k, b, a);
        if k < i {
            assert(orders_at(r, k, b, a));
        }
        assert forall|j: int| 0 <= j < i implies !#[trigger] orders_at(events, j, b, a) by {
            assert(!orders_at(r, j, b, a));
        }
        lemma_first_row(e, b, a, e.held.len() as int);
        assert(e.held.take(e.held.len() as int) =~= e.held);
        i
    }
}

proof fn lemma_first_row(e: EventV, b: Name, a: Name, n: int)
    requires
        0 <= n <= e.held.len(),
    ensures
        first_of(
            e.held.take(n).map_values(|h: Name| induced(e, h)),
            b,
            a,
        ) == if e.acquires == a && e.held.take(n).contains(b) {
            Some(ConstraintV { before: b, after: a, function: e.function, site: e.site })
        } else {
            None
        },
    decreases n,
{
    let f = |h: Name| induced(e, h);
    let q = e.held.take(n);
    if n > 0 {
        lemma_first_row(e, b, a, n - 1);
        let p = e.held.take(n - 1);
        assert(q.map_values(f).drop_last() =~= p.map_values(f));
        assert(q.map_values(f).last() == f(e.held[n - 1]));
        assert(q =~= p.push(e.held[n - 1]));
        lemma_push_contains(p, e.held[n - 1], b);
    }
}

proof fn lemma_first_concat(q: Seq<ConstraintV>, row: Seq<ConstraintV>, b: Name, a: Name)
    ensures
        first_of(q + row, b, a) == match first_of(q, b, a) {
            Some(c) => Some(c),
            None => first_of(row, b, a),
        },
    decreases row.len(),
{
    if row.len() == 0 {
        assert(q + row =~= q);
    } else {
        assert((q + row).drop_last() =~= q + row.drop_last());
        lemma_first_concat(q, row.drop_last(), b, a);
    }
}

/// The step is made by an event, and bears the function and the site of the first
/// that makes it.
pub open spec fn names_first_site(events: Seq<EventV>, c: ConstraintV) -> bool {
    exists|i: int| #[trigger]
        first_orders_at(events, i, c.before, c.after) && c.function == events[i].function && c.site
            == events[i].site
}

/// Every step of a reported cycle bears the function and the site of the first
/// event that makes it, and leads to where the next starts.
pub proof fn cycles_name_the_first_sites(events: Seq<EventV>)
    requires
        classes(events).len() <= usize::MAX,
    ensures
        match verdict(events) {
            OutcomeV::Deadlock { cycle } => {
                &&& cycle.len() > 0
                &&& forall|k: int|
                    0 <= k < cycle.len() ==> names_first_site(events, #[trigger] cycle[k])
                &&& forall|k: int|
                    0 <= k < cycle.len() - 1 ==> (#[trigger] cycle[k]).after == cycle[k + 1].before
                &&& cycle.last().after == cycle[0].before
            },
            OutcomeV::DeadlockFree { order } => true,
        },
{
    cycle_is_witnessed(events);
    if let OutcomeV::Deadlock { cycle } = verdict(events) {
        assert(is_witnessed_ring(events, cycle));
        lemma_cycle_witnesses(events);
        assert forall|k: int| 0 <= k < cycle.len() implies names_first_site(
            events,
            #[trigger] cycle[k],
        ) by {
            let (b, a) = (cycle[k].before, cycle[k].after);
            let i = lemma_first_event(events, b, a);
            assert(cycle[k] == witness(events, b, a));
        }
    }
}

/// Every step of a reported cycle is the witness of its edge.
proof fn lemma_cycle_witnesses(events: Seq<EventV>)
    requires
        classes(events).len() <= usize::MAX,
        verdict(events) is Deadlock,
    ensures
        forall|k: int|
            0 <= k < verdict(events)->cycle.len() ==> {
                let c = #[trigger] verdict(events)->cycle[k];
                has_edge(events, c.before, c.after) && c == witness(events, c.before, c.after)
            },
{
    cycle_is_witnessed(events);
    let cycle = verdict(events)->cycle;
    assert forall|k: int| 0 <= k < cycle.len() implies {
        let c = #[trigger] cycle[k];
        has_edge(events, c.before, c.after) && c == witness(events, c.before, c.after)
    } by {
        let c = cycle[k];
        assert(is_induced(events, c));
        let i = choose|i: int|
            0 <= i < events.len() && (#[trigger] events[i]).held.contains(c.before) && c
                == induced(events[i], c.before);
        assert(events[i].acquires == c.after);
        assert(has_edge(events, c.before, c.after));
        let cls = classes(events);
        if exists|j: int| first_self(events, j) {
            let j = choose|j: int| first_self(events, j);
            lemma_witness(events, cls[j], cls[j]);
        } else {
            let g = class_graph(events);
            let order = removal_order(g);
            let ring = ring_of(g, order);
            let b = cls[ring[k] as int];
            let a = cls[ring[(k + 1) % ring.len() as int] as int];
            assert(c == witness(events, b, a));
            lemma_ring_step(events, k);
            lemma_witness(events, b, a);
        }
    }
}

proof fn lemma_ring_step(events: Seq<EventV>, k: int)
    requires
        classes(events).len() <= usize::MAX,
        verdict(events) is Deadlock,
        !exists|i: int| first_self(events, i),
        0 <= k < verdict(events)->cycle.len(),
    ensures
        ({
            let cls = classes(events);
            let g = class_graph(events);
            let ring = ring_of(g, removal_order(g));
            has_edge(
                events,
                cls[ring[k] as int],
                cls[ring[(k + 1) % ring.len() as int] as int],
            )
        }),
{
    lemma_ring_ordered(events, k);
}

/// A class that is taken while it is held is reported by itself.
pub proof fn self_orders_are_reported_alone(events: Seq<EventV>, x: Name)
    requires
        classes(events).len() <= usize::MAX,
        is_ordered(events, x, x),
    ensures
        verdict(events) is Deadlock,
        verdict(events)->cycle.len() == 1,
        verdict(events)->cycle[0].before == verdict(events)->cycle[0].after,
{
    lemma_edge(events, x, x);
    lemma_mentioned(events, x);
    let i = choose|i: int| orders_at(events, i, x, x);
    assert(occurs_at(events, i, x));
    lemma_distinct(mentioned(events));
    let cls = classes(events);
    assert(cls.contains(x));
    let k = choose|k: int| 0 <= k < cls.len() && cls[k] == x;
    lemma_least_self(events, k);
    let j = choose|j: int| first_self(events, j);
    lemma_witness(events, cls[j], cls[j]);
}

proof fn lemma_least_self(events: Seq<EventV>, k: int)
    requires
        0 <= k < classes(events).len(),
        has_edge(events, classes(events)[k], classes(events)[k]),
    ensures
        exists|i: int| first_self(events, i),
    decreases k,
{
    let cls = classes(events);
    if exists|j: int| 0 <= j < k && has_edge(events, #[trigger] cls[j], cls[j]) {
        let j = choose|j: int| 0 <= j < k && has_edge(events, #[trigger] cls[j], cls[j]);
        lemma_least_self(events, j);
    } else {
        assert(first_self(events, k));
    }
}

/// The explanation by reentrancy is given if and only if the report is of one
/// class that is taken while it is held, and that class is known to have fewer
/// than two instances.
pub proof fn reentrancy_needs_a_single_instance(p: ProgramV)
    requires
        classes(p.events).len() <= usize::MAX,
    ensures
        analysis(p).self_loop_single_instance <==> match verdict(p.events) {
            OutcomeV::Deadlock { cycle } => {
                let x = cycle[0].before;
                cycle.len() == 1 && x == cycle[0].after && p.class_instances.contains_key(x)
                    && p.class_instances[x] < 2
            },
            OutcomeV::DeadlockFree { order } => false,
        },
{
    let events = p.events;
    let cls = classes(events);
    lemma_distinct(mentioned(events));
    if exists|i: int| first_self(events, i) {
        let i = choose|i: int| first_self(events, i);
        lemma_witness(events, cls[i], cls[i]);
        assert forall|j: int| #[trigger] first_self(events, j) implies j == i by {
            if j < i {
                assert(!has_edge(events, cls[j], cls[j]));
            } else if i < j {
                assert(!has_edge(events, cls[i], cls[i]));
            }
        }
        if p.class_instances.contains_key(cls[i]) && p.class_instances[cls[i]] < 2 {
            assert(reentrant(p));
        }
    } else {
        if let OutcomeV::Deadlock { cycle } = verdict(events) {
            if cycle.len() == 1 && cycle[0].before == cycle[0].after {
                lemma_cycle_witnesses(events);
                let x = cycle[0].before;
                assert(has_edge(events, x, x));
                lemma_edge(events, x, x);
                lemma_mentioned(events, x);
                let i = choose|i: int| orders_at(events, i, x, x);
                assert(occurs_at(events, i, x));
                assert(cls.contains(x));
                let k = choose|k: int| 0 <= k < cls.len() && cls[k] == x;
                lemma_least_self(events, k);
            }
        }
    }
}

/// The classes, and the pairs of classes of which one is taken while the other is
/// held, are counted once each.
pub proof fn counts_are_those_of_the_events(p: ProgramV, cls: Set<Name>, pairs: Set<(Name, Name)>)
    requires
        cls.finite(),
        forall|x: Name| #[trigger] cls.contains(x) <==> occurs(p.events, x),
        pairs.finite(),
        forall|b: Name, a: Name| #[trigger]
            pairs.contains((b, a)) <==> is_ordered(p.events, b, a),
    ensures
        analysis(p).program == p.name,
        analysis(p).event_count == p.events.len(),
        analysis(p).class_count == cls.len(),
        analysis(p).constraint_count == pairs.len(),
{
    let q = classes(p.events);
    lemma_distinct(mentioned(p.events));
    q.unique_seq_to_set();
    assert forall|x: Name| q.to_set().contains(x) <==> cls.contains(x) by {
        lemma_mentioned(p.events, x);
        assert(q.to_set().contains(x) <==> q.contains(x));
    }
    assert(q.to_set() =~= cls);
    let all = all_constraints(p.events);
    let f = |c: ConstraintV| (c.before, c.after);
    let firsts = first_constraints(all).map_values(f);
    lemma_firsts(all);
    firsts.unique_seq_to_set();
    assert forall|x: (Name, Name)| firsts.to_set().contains(x) <==> pairs.contains(x) by {
        let (b, a) = x;
        assert(firsts.to_set().contains((b, a)) <==> firsts.contains((b, a)));
        lemma_constraint(p.events, b, a);
        lemma_edge(p.events, b, a);
        assert(pairs.contains((b, a)) <==> has_edge(p.events, b, a));
        assert(firsts.contains((b, a)) <==> first_of(all, b, a) is Some);
    }
    assert(firsts.to_set() =~= pairs);
}

/// The first constraints have every ordering once.
proof fn lemma_firsts(q: Seq<ConstraintV>)
    ensures
        ({
            let firsts = first_constraints(q).map_values(|c: ConstraintV| (c.before, c.after));
            &&& firsts.no_duplicates()
            &&& forall|b: Name, a: Name| #[trigger]
                firsts.contains((b, a)) <==> first_of(q, b, a) is Some
        }),
    decreases q.len(),
{
    let f = |c: ConstraintV| (c.before, c.after);
    let firsts = first_constraints(q).map_values(f);
    if q.len() > 0 {
        let r = q.drop_last();
        let before = first_constraints(r).map_values(f);
        let c = q.last();
        lemma_firsts(r);
        if first_of(r, c.before, c.after) is Some {
            assert(firsts == before);
        } else {
            assert(firsts =~= before.push((c.before, c.after)));
            assert(!before.contains((c.before, c.after)));
        }
        assert forall|b: Name, a: Name| #[trigger] firsts.contains((b, a)) <==> first_of(
            q,
            b,
            a,
        ) is Some by {
            assert(before.contains((b, a)) <==> first_of(r, b, a) is Some);
            if firsts.contains((b, a)) {
                let k = choose|k: int| 0 <= k < firsts.len() && firsts[k] == (b, a);
                if k < before.len() {
                    assert(before[k] == (b, a));
                }
            }
            if before.contains((b, a)) {
                let k = choose|k: int| 0 <= k < before.len() && before[k] == (b, a);
                assert(firsts[k] == (b, a));
            }
            if first_of(q, b, a) is Some && first_of(r, b, a) is None {
                assert(firsts[before.len() as int] == (b, a));
            }
        }
    }
}

/// The pair is a step of the reported cycle.
pub open spec fn is_reported(events: Seq<EventV>, b: Name, a: Name) -> bool {
    match verdict(events) {
        OutcomeV::Deadlock { cycle } => exists|i: int|
            0 <= i < cycle.len() && (#[trigger] cycle[i]).before == b && cycle[i].after == a,
        OutcomeV::DeadlockFree { order } => false,
    }
}

/// The pairs in ascending order: by the first class, then by the second.
pub open spec fn pairs_ascend(pairs: Seq<(Name, Name)>) -> bool {
    forall|i: int, j: int|
        0 <= i < j < pairs.len() ==> {
            let (x, y) = (#[trigger] pairs[i], #[trigger] pairs[j]);
            lex_lt(x.0, y.0) || (x.0 == y.0 && lex_lt(x.1, y.1))
        }
}

/// The lines of the pairs: a step of the reported cycle is red.
pub open spec fn drawn(events: Seq<EventV>, pairs: Seq<(Name, Name)>) -> Name
    decreases pairs.len(),
{
    if pairs.len() == 0 {
        Seq::empty()
    } else {
        let (b, a) = pairs.last();
        drawn(events, pairs.drop_last()) + ("  "@ + quoted(b) + " -> "@ + quoted(a) + if is_reported(
            events,
            b,
            a,
        ) {
            " [color=red, penwidth=2];\n"@
        } else {
            ";\n"@
        })
    }
}

/// The graph draws every pair of classes of which one is taken while the other is
/// held, once and in ascending order, and in red exactly the steps of the
/// reported cycle.
pub proof fn graphs_show_every_order_and_the_cycle_in_red(events: Seq<EventV>)
    ensures
        exists|pairs: Seq<(Name, Name)>|
            {
                &&& #[trigger] pairs_ascend(pairs)
                &&& forall|b: Name, a: Name| #[trigger]
                    pairs.contains((b, a)) <==> is_ordered(events, b, a)
                &&& dot_document(dot_edges(events, sorted(held_classes(events))))
                    == "digraph whorl {\n  rankdir=LR;\n  node [shape=box, fontname=\"monospace\"];\n"@
                    + drawn(events, pairs) + "}\n"@
            },
{
    lemma_held_finite(events);
    lemma_sorted_set(held_classes(events));
    let befores = sorted(held_classes(events));
    let pairs = lemma_drawn(events, befores);
    assert forall|b: Name, a: Name| #[trigger] pairs.contains((b, a)) <==> is_ordered(events, b, a) by {
        lemma_edge(events, b, a);
        if has_edge(events, b, a) {
            lemma_held_class(events, b);
            assert(befores.contains(b));
        }
    }
}

proof fn lemma_held_finite(events: Seq<EventV>)
    ensures
        held_classes(events).finite(),
    decreases events.len(),
{
    if events.len() > 0 {
        lemma_held_finite(events.drop_last());
    }
}

proof fn lemma_held_class(events: Seq<EventV>, b: Name)
    ensures
        held_classes(events).contains(b) <==> exists|i: int|
            0 <= i < events.len() && (#[trigger] events[i]).held.contains(b),
    decreases events.len(),
{
    if events.len() > 0 {
        let r = events.drop_last();
        lemma_held_class(r, b);
        assert(events.last().held.to_set().contains(b) <==> events.last().held.contains(b));
        if held_classes(r).contains(b) {
            let i = choose|i: int| 0 <= i < r.len() && (#[trigger] r[i]).held.contains(b);
            assert(events[i].held.contains(b));
        }
        if exists|i: int| 0 <= i < events.len() && (#[trigger] events[i]).held.contains(b) {
            let i = choose|i: int| 0 <= i < events.len() && (#[trigger] events[i]).held.contains(b);
            if i < r.len() {
                assert(r[i].held.contains(b));
            } else {
                assert(events[i] == events.last());
            }
        }
    }
}

proof fn lemma_after(events: Seq<EventV>, b: Name, a: Name)
    ensures
        classes_after(events, b).contains(a) <==> has_edge(events, b, a),
        classes_after(events, b).finite(),
    decreases events.len(),
{
    if events.len() > 0 {
        let r = events.drop_last();
        lemma_after(r, b, a);
        if has_edge(r, b, a) {
            let i = choose|i: int|
                0 <= i < r.len() && (#[trigger] r[i]).acquires == a && r[i].held.contains(b);
            assert(events[i].acquires == a);
        }
        if has_edge(events, b, a) {
            let i = choose|i: int|
                0 <= i < events.len() && (#[trigger] events[i]).acquires == a
                    && events[i].held.contains(b);
            if i < r.len() {
                assert(r[i].acquires == a);
            } else {
                assert(events[i] == events.last());
            }
        }
        if events.last().held.contains(b) && events.last().acquires == a {
            assert(events[events.len() - 1].acquires == a);
        }
    }
}

/// The pairs that are drawn from the classes `befores`.
proof fn lemma_drawn(events: Seq<EventV>, befores: Seq<Name>) -> (pairs: Seq<(Name, Name)>)
    requires
        ascending(befores),
    ensures
        pairs_ascend(pairs),
        forall|b: Name, a: Name| #[trigger]
            pairs.contains((b, a)) <==> befores.contains(b) && has_edge(events, b, a),
        dot_lines(dot_edges(events, befores)) == drawn(events, pairs),
    decreases befores.len(),
{
    if befores.len() == 0 {
        let pairs = Seq::<(Name, Name)>::empty();
        assert(dot_lines(dot_edges(events, befores)) =~= drawn(events, pairs));
        pairs
    } else {
        let r = befores.drop_last();
        let b0 = befores.last();
        assert(ascending(r)) by {
            assert forall|i: int, j: int| 0 <= i < j < r.len() implies lex_lt(
                #[trigger] r[i],
                #[trigger] r[j],
            ) by {
                assert(lex_lt(befores[i], befores[j]));
            }
        }
        let before = lemma_drawn(events, r);
        lemma_after(events, b0, b0);
        lemma_sorted_set(classes_after(events, b0));
        let afters = sorted(classes_after(events, b0));
        lemma_row_drawn(events, b0, before, dot_edges(events, r), afters, afters.len() as int);
        assert(afters.take(afters.len() as int) =~= afters);
        let row = afters.map_values(|a: Name| (b0, a));
        let pairs = before + row;
        assert forall|b: Name, a: Name| #[trigger] pairs.contains((b, a)) <==> befores.contains(b)
            && has_edge(events, b, a) by {
            lemma_after(events, b0, a);
            assert(before.contains((b, a)) <==> r.contains(b) && has_edge(events, b, a));
            assert(befores =~= r.push(b0));
            lemma_push_contains(r, b0, b);
            if pairs.contains((b, a)) {
                let k = choose|k: int| 0 <= k < pairs.len() && pairs[k] == (b, a);
                if k < before.len() {
                    assert(before[k] == (b, a));
                } else {
                    assert(row[k - before.len()] == (b, a));
                    assert(afters[k - before.len()] == a);
                    assert(afters.contains(a));
                }
            }
            if before.contains((b, a)) {
                let k = choose|k: int| 0 <= k < before.len() && before[k] == (b, a);
                assert(pairs[k] == (b, a));
            }
            if b == b0 && has_edge(events, b, a) {
                assert(afters.contains(a));
                let k = choose|k: int| 0 <= k < afters.len() && afters[k] == a;
                assert(pairs[before.len() + k] == (b, a));
            }
        }
        assert(pairs_ascend(pairs)) by {
            assert forall|i: int, j: int| 0 <= i < j < pairs.len() implies {
                let (x, y) = (#[trigger] pairs[i], #[trigger] pairs[j]);
                lex_lt(x.0, y.0) || (x.0 == y.0 && lex_lt(x.1, y.1))
            } by {
                if j < before.len() {
                    assert(pairs[i] == before[i] && pairs[j] == before[j]);
                } else if i < before.len() {
                    let (b, a) = before[i];
                    assert(before.contains((b, a)));
                    assert(r.contains(b));
                    let k = choose|k: int| 0 <= k < r.len() && r[k] == b;
                    assert(lex_lt(befores[k], befores[befores.len() - 1]));
                    assert(pairs[j] == row[j - before.len()]);
                } else {
                    assert(pairs[i] == row[i - before.len()]);
                    assert(pairs[j] == row[j - before.len()]);
                    assert(lex_lt(afters[i - before.len()], afters[j - before.len()]));
                }
            }
        }
        pairs
    }
}

proof fn lemma_row_drawn(
    events: Seq<EventV>,
    b: Name,
    before: Seq<(Name, Name)>,
    edges: Seq<DotEdgeV>,
    afters: Seq<Name>,
    n: int,
)
    requires
        0 <= n <= afters.len(),
        dot_lines(edges) == drawn(events, before),
    ensures
        dot_lines(
            edges + afters.take(n).map_values(
                |a: Name|
                    DotEdgeV { from: quoted(b), to: quoted(a), on_cycle: on_cycle(events, b, a) },
            ),
        ) == drawn(events, before + afters.take(n).map_values(|a: Name| (b, a))),
    decreases n,
{
    let f = |a: Name|
        DotEdgeV { from: quoted(b), to: quoted(a), on_cycle: on_cycle(events, b, a) };
    let g = |a: Name| (b, a);
    let q = afters.take(n);
    if n == 0 {
        assert(edges + q.map_values(f) =~= edges);
        assert(before + q.map_values(g) =~= before);
    } else {
        lemma_row_drawn(events, b, before, edges, afters, n - 1);
        let p = afters.take(n - 1);
        let a = afters[n - 1];
        assert((edges + q.map_values(f)).drop_last() =~= edges + p.map_values(f));
        assert((before + q.map_values(g)).drop_last() =~= before + p.map_values(g));
        assert((edges + q.map_values(f)).last() == f(a));
        assert((before + q.map_values(g)).last() == (b, a));
        assert(on_cycle(events, b, a) == is_reported(events, b, a));
    }
}

}
