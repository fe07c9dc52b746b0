//! Adding a declaration to a program only adds ordering edges.

use vstd::prelude::*;

use crate::ast::{ItemV, StmtV};
use crate::exactness::{
    bare_place, complete_analysis_is_exact, context, context_in, every_edge_is_real, extern_orders,
    gives_edge, may_run, occurs, occurs_in, orders, passes, preempts, real_edge, stands, widen,
};
use crate::flow::{calls_of, flows, flows_by, is_binding, may_target, TargetV};
use crate::frontend::{
    all_declared, entry_place, has_isr, inside_ordered, inside_with, last_index,
    lemma_block_extends, lock_classes, lowering, no_state, seed_all, seeded, turns, FrameV, Key,
    PlaceV, ScopeV, StateV, MAX_ANALYSES,
};
use crate::havender::partial_deadlock_is_real;
use crate::model::{has_edge, ProgramV};
use crate::ordset::sorted;
use crate::solver::{classes, verdict};
use crate::tables::{declare, declared, extern_errors, tables_of, TablesV};
use crate::text::Name;

verus! {

/// What `a` declares, `b` declares in the same way, and a name that stands for an
/// extern in `a` stands for no function in `b`.
pub open spec fn grows(a: TablesV, b: TablesV) -> bool {
    &&& forall|l: Name| #[trigger]
        a.lock_class.contains_key(l) ==> b.lock_class.contains_key(l) && b.lock_class[l]
            == a.lock_class[l] && b.lock_index[l] == a.lock_index[l]
    &&& forall|f: Name| #[trigger]
        a.funcs.contains_key(f) ==> b.funcs.contains_key(f) && b.funcs[f] == a.funcs[f]
    &&& forall|e: Name| #[trigger]
        a.externs.contains_key(e) ==> b.externs.contains_key(e) && b.externs[e] == a.externs[e]
            && !b.funcs.contains_key(e)
}

proof fn lemma_flows_grow(a: TablesV, b: TablesV, n: nat, f: Name, p: Name, x: TargetV)
    requires
        grows(a, b),
        flows_by(a, n, f, p, x),
    ensures
        flows_by(b, n, f, p, x),
    decreases n, 0nat,
{
    let (g, k, i) = choose|g: Name, k: int, i: int|
        #[trigger] is_binding(a, g, k, i, f, p) && may_target(
            a,
            (n - 1) as nat,
            g,
            calls_of(a.funcs[g])[k].callee,
            TargetV::Func(f),
        ) && may_target(a, (n - 1) as nat, g, calls_of(a.funcs[g])[k].args[i], x);
    let call = calls_of(a.funcs[g])[k];
    lemma_target_grows(a, b, (n - 1) as nat, g, call.callee, TargetV::Func(f));
    lemma_target_grows(a, b, (n - 1) as nat, g, call.args[i], x);
    assert(is_binding(b, g, k, i, f, p));
}

proof fn lemma_target_grows(a: TablesV, b: TablesV, n: nat, f: Name, name: Name, x: TargetV)
    requires
        grows(a, b),
        a.funcs.contains_key(f),
        may_target(a, n, f, name, x),
    ensures
        may_target(b, n, f, name, x),
    decreases n, 1nat,
{
    if a.funcs[f].params.contains(name) {
        lemma_flows_grow(a, b, n, f, name, x);
    }
}

proof fn lemma_run_grows(a: TablesV, b: TablesV, f: Name, callee: Name, x: TargetV)
    requires
        grows(a, b),
        a.funcs.contains_key(f),
        may_run(a, f, callee, x),
    ensures
        may_run(b, f, callee, x),
{
    if a.funcs[f].params.contains(callee) {
        let n = choose|n: nat| flows_by(a, n, f, callee, x);
        lemma_flows_grow(a, b, n, f, callee, x);
        assert(flows(b, f, callee, x));
    }
}

proof fn lemma_locks_grow(a: TablesV, b: TablesV, locks: Seq<Name>)
    requires
        grows(a, b),
        all_declared(a, locks),
    ensures
        all_declared(b, locks),
        lock_classes(b, locks) == lock_classes(a, locks),
{
    assert forall|i: int| 0 <= i < locks.len() implies b.lock_class.contains_key(
        #[trigger] locks[i],
    ) by {
        assert(a.lock_class.contains_key(locks[i]));
    }
    assert forall|i: int| 0 <= i < locks.len() implies lock_classes(b, locks)[i] == lock_classes(
        a,
        locks,
    )[i] by {
        assert(a.lock_class.contains_key(locks[i]));
    }
    assert(lock_classes(b, locks) =~= lock_classes(a, locks));
}

proof fn lemma_index_grows(a: TablesV, b: TablesV, locks: Seq<Name>)
    requires
        grows(a, b),
        all_declared(a, locks),
    ensures
        last_index(b, locks) == last_index(a, locks),
    decreases locks.len(),
{
    if locks.len() > 0 {
        let r = locks.drop_last();
        assert forall|i: int| 0 <= i < r.len() implies a.lock_class.contains_key(
            #[trigger] r[i],
        ) by {
            assert(a.lock_class.contains_key(locks[i]));
        }
        lemma_index_grows(a, b, r);
        assert(a.lock_class.contains_key(locks[locks.len() - 1]));
    }
}

proof fn lemma_ordered_grows(a: TablesV, b: TablesV, p: PlaceV, locks: Seq<Name>)
    requires
        grows(a, b),
        locks.len() > 0,
        all_declared(a, locks),
    ensures
        inside_ordered(b, p, locks) == inside_ordered(a, p, locks),
{
    assert(a.lock_class.contains_key(locks[0]));
    lemma_index_grows(a, b, locks);
}

proof fn lemma_occurs_grows(
    a: TablesV,
    b: TablesV,
    block: Seq<StmtV>,
    n: int,
    p: PlaceV,
    s: StmtV,
    q: PlaceV,
)
    requires
        grows(a, b),
        occurs(a, block, n, p, s, q),
    ensures
        occurs(b, block, n, p, s, q),
    decreases block, n,
{
    if occurs(a, block, n - 1, p, s, q) {
        lemma_occurs_grows(a, b, block, n - 1, p, s, q);
    } else {
        lemma_occurs_in_grows(a, b, block[n - 1], p, s, q);
    }
}

proof fn lemma_occurs_in_grows(a: TablesV, b: TablesV, x: StmtV, p: PlaceV, s: StmtV, q: PlaceV)
    requires
        grows(a, b),
        occurs_in(a, x, p, s, q),
    ensures
        occurs_in(b, x, p, s, q),
    decreases x,
{
    if !(s == x && q == p) {
        match x {
            StmtV::With { lock, line, body } => {
                let inner = inside_with(p, a.lock_class[lock], a.lock_index[lock]);
                lemma_occurs_grows(a, b, body, body.len() as int, inner, s, q);
            },
            StmtV::Ordered { locks, line, body } => {
                lemma_locks_grow(a, b, locks);
                lemma_ordered_grows(a, b, p, locks);
                let inner = inside_ordered(a, p, locks);
                lemma_occurs_grows(a, b, body, body.len() as int, inner, s, q);
            },
            StmtV::Couple { class, line, body } => {
                let coupled = if p.coupled.contains_key(class) {
                    p.coupled
                } else {
                    p.coupled.insert(class, None)
                };
                let inner = PlaceV { coupled, depth: p.depth + 1, ..p };
                lemma_occurs_grows(a, b, body, body.len() as int, inner, s, q);
            },
            StmtV::Mask { body } => {
                let inner = PlaceV { masked: true, depth: p.depth + 1, ..p };
                lemma_occurs_grows(a, b, body, body.len() as int, inner, s, q);
            },
            StmtV::Call { callee, args, line } => {},
        }
    }
}

proof fn lemma_stands_grows(a: TablesV, b: TablesV, k: Key, s: StmtV, q: PlaceV)
    requires
        grows(a, b),
        stands(a, k, s, q),
    ensures
        stands(b, k, s, q),
{
    let body = a.funcs[k.0].body;
    let start = bare_place(k.1);
    lemma_occurs_grows(a, b, body, body.len() as int, start, s, q);
}

proof fn lemma_context_grows(a: TablesV, b: TablesV, n: nat, k: Key, h: Set<Name>)
    requires
        grows(a, b),
        context_in(a, n, k, h),
    ensures
        context_in(b, n, k, h),
    decreases n,
{
    if n > 0 {
        let (k0, h0) = choose|k0: Key, h0: Set<Name>|
            context_in(a, (n - 1) as nat, k0, h0) && #[trigger] passes(a, k0, h0, k, h);
        lemma_context_grows(a, b, (n - 1) as nat, k0, h0);
        let (s, q) = choose|s: StmtV, q: PlaceV|
            #[trigger] stands(a, k0, s, q) && s is Call && may_run(
                a,
                k0.0,
                s->callee,
                TargetV::Func(k.0),
            ) && k.1 == q.masked && h == h0.union(q.held);
        lemma_stands_grows(a, b, k0, s, q);
        lemma_run_grows(a, b, k0.0, s->callee, TargetV::Func(k.0));
        assert(passes(b, k0, h0, k, h));
    }
}

proof fn lemma_handlers_grow(a: TablesV, b: TablesV)
    requires
        grows(a, b),
        has_isr(a),
    ensures
        has_isr(b),
{
    let f = choose|f: Name| #[trigger] a.funcs.contains_key(f) && a.funcs[f].is_isr;
    assert(b.funcs.contains_key(f));
}

proof fn lemma_extern_orders_grows(
    a: TablesV,
    b: TablesV,
    acquires: Seq<Name>,
    held: Set<Name>,
    masked: bool,
    before: Name,
    after: Name,
)
    requires
        grows(a, b),
        extern_orders(a, acquires, held, masked, before, after),
    ensures
        extern_orders(b, acquires, held, masked, before, after),
{
    let i = choose|i: int|
        0 <= i < acquires.len() && ((after == #[trigger] acquires[i] && held.union(
            acquires.take(i).to_set(),
        ).contains(before)) || preempts(a, masked, acquires[i], before, after));
    if has_isr(a) {
        lemma_handlers_grow(a, b);
    }
    assert((after == acquires[i] && held.union(acquires.take(i).to_set()).contains(before))
        || preempts(b, masked, acquires[i], before, after));
}

proof fn lemma_orders_grow(
    a: TablesV,
    b: TablesV,
    f: Name,
    s: StmtV,
    q: PlaceV,
    before: Name,
    after: Name,
)
    requires
        grows(a, b),
        a.funcs.contains_key(f),
        orders(a, f, s, q, before, after),
    ensures
        orders(b, f, s, q, before, after),
{
    if has_isr(a) {
        lemma_handlers_grow(a, b);
    }
    match s {
        StmtV::Ordered { locks, line, body } => {
            lemma_locks_grow(a, b, locks);
        },
        StmtV::Call { callee, args, line } => {
            let e = choose|e: Name| #[trigger]
                may_run(a, f, callee, TargetV::Extern(e)) && a.externs.contains_key(e)
                    && extern_orders(a, a.externs[e], q.held, q.masked, before, after);
            lemma_run_grows(a, b, f, callee, TargetV::Extern(e));
            lemma_extern_orders_grows(a, b, a.externs[e], q.held, q.masked, before, after);
        },
        _ => {},
    }
}

/// More declarations give more edges.
proof fn lemma_edges_grow(a: TablesV, b: TablesV, before: Name, after: Name)
    requires
        grows(a, b),
        real_edge(a, before, after),
    ensures
        real_edge(b, before, after),
{
    let (k, h) = choose|k: Key, h: Set<Name>| #[trigger]
        context(a, k, h) && gives_edge(a, k, h, before, after);
    let n = choose|n: nat| context_in(a, n, k, h);
    lemma_context_grows(a, b, n, k, h);
    assert(context(b, k, h));
    let (s, q) = choose|s: StmtV, q: PlaceV|
        #[trigger] stands(a, k, s, q) && orders(a, k.0, s, widen(q, h), before, after);
    lemma_stands_grows(a, b, k, s, q);
    lemma_orders_grow(a, b, k.0, s, widen(q, h), before, after);
    assert(gives_edge(b, k, h, before, after));
}

proof fn lemma_turns_keep_errors(c: ScopeV, st: StateV, n: nat)
    ensures
        st.errors.len() <= turns(c, st, n).errors.len(),
    decreases n,
{
    if n > 0 {
        let st1 = turns(c, st, (n - 1) as nat);
        lemma_turns_keep_errors(c, st, (n - 1) as nat);
        if st1.queue.len() > 0 && !st1.aborted {
            let k = st1.queue.last();
            let popped = StateV { queue: st1.queue.drop_last(), ..st1 };
            let st2 = StateV { analyses: popped.analyses + 1, ..popped };
            if c.t.funcs.contains_key(k.0) {
                let f = c.t.funcs[k.0];
                let frame = FrameV { name: k.0, params: f.params };
                lemma_block_extends(c, st2, frame, f.body, entry_place(st2.entry, k));
            }
        }
    }
}

proof fn lemma_seeds_keep_errors(c: ScopeV, st: StateV, fs: Seq<Name>)
    ensures
        seed_all(c, st, fs).errors == st.errors,
    decreases fs.len(),
{
    if fs.len() > 0 {
        lemma_seeds_keep_errors(c, st, fs.drop_last());
    }
}

/// A program that is lowered has no errors in its declarations.
proof fn lemma_declared_well(items: Seq<ItemV>, file: Name)
    requires
        lowering(items, file) is Ok,
    ensures
        tables_of(items).errors.len() == 0,
{
    let t = tables_of(items);
    let c = ScopeV { t, file };
    lemma_seeds_keep_errors(c, no_state(t), sorted(t.funcs.dom()));
    lemma_turns_keep_errors(c, seeded(c), (MAX_ANALYSES + 1) as nat);
}

/// The externs are those in the order of declaration.
proof fn lemma_extern_names(items: Seq<ItemV>, e: Name)
    requires
        declared(items).externs.contains_key(e),
    ensures
        declared(items).extern_names.contains(e),
    decreases items.len(),
{
    if items.len() > 0 {
        let t = declared(items.drop_last());
        match items.last() {
            ItemV::Extern { name, acquires } => {
                if t.externs.contains_key(e) {
                    lemma_extern_names(items.drop_last(), e);
                    let i = choose|i: int| 0 <= i < t.extern_names.len() && t.extern_names[i] == e;
                    assert(declared(items).extern_names[i] == e);
                } else {
                    assert(declared(items).extern_names[t.extern_names.len() as int] == e);
                }
            },
            _ => {
                lemma_extern_names(items.drop_last(), e);
            },
        }
    }
}

/// Without errors, no extern bears the name of a function.
proof fn lemma_no_collision(t: TablesV, q: Seq<Name>, i: int)
    requires
        extern_errors(t, q).len() == 0,
        0 <= i < q.len(),
    ensures
        !t.funcs.contains_key(q[i]),
    decreases q.len(),
{
    let r = q.drop_last();
    assert(extern_errors(t, r).len() == 0);
    if i < r.len() {
        lemma_no_collision(t, r, i);
        assert(r[i] == q[i]);
    }
}

proof fn lemma_declaration_grows(items: Seq<ItemV>, item: ItemV)
    requires
        tables_of(items.push(item)).errors.len() == 0,
    ensures
        grows(tables_of(items), tables_of(items.push(item))),
{
    let more = items.push(item);
    assert(more.drop_last() =~= items);
    let t = declared(items);
    let u = declared(more);
    assert(u == declare(t, item));
    assert(u.errors.len() == 0);
    assert forall|e: Name| #[trigger] t.externs.contains_key(e) implies u.externs.contains_key(e)
        && u.externs[e] == t.externs[e] && !u.funcs.contains_key(e) by {
        lemma_extern_names(more, e);
        let i = choose|i: int| 0 <= i < u.extern_names.len() && u.extern_names[i] == e;
        lemma_no_collision(u, u.extern_names, i);
    }
}

/// Adding a declaration only adds ordering edges: an edge of the program is an
/// edge of the larger program, if the analysis of that is complete.
pub proof fn declarations_only_add_edges(
    items: Seq<ItemV>,
    item: ItemV,
    file: Name,
    p: ProgramV,
    larger: ProgramV,
    before: Name,
    after: Name,
)
    requires
        lowering(items, file) == Ok::<ProgramV, Seq<Name>>(p),
        lowering(items.push(item), file) == Ok::<ProgramV, Seq<Name>>(larger),
        larger.incomplete is None,
        has_edge(p.events, before, after),
    ensures
        has_edge(larger.events, before, after),
{
    every_edge_is_real(items, file, p, before, after);
    lemma_declared_well(items.push(item), file);
    lemma_declaration_grows(items, item);
    lemma_edges_grow(tables_of(items), tables_of(items.push(item)), before, after);
    complete_analysis_is_exact(items.push(item), file, larger, before, after);
}

/// So a deadlock never goes away by adding a declaration.
pub proof fn deadlocks_stay_when_declarations_are_added(
    items: Seq<ItemV>,
    item: ItemV,
    file: Name,
    p: ProgramV,
    larger: ProgramV,
)
    requires
        lowering(items, file) == Ok::<ProgramV, Seq<Name>>(p),
        lowering(items.push(item), file) == Ok::<ProgramV, Seq<Name>>(larger),
        larger.incomplete is None,
        classes(p.events).len() <= usize::MAX,
        classes(larger.events).len() <= usize::MAX,
        verdict(p.events) is Deadlock,
    ensures
        verdict(larger.events) is Deadlock,
{
    assert forall|b: Name, a: Name| #[trigger] has_edge(p.events, b, a) implies has_edge(
        larger.events,
        b,
        a,
    ) by {
        declarations_only_add_edges(items, item, file, p, larger, b, a);
    }
    partial_deadlock_is_real(p.events, larger.events);
}

}
