//! The analysis misses nothing: a program that it finds safe can never reach a
//! circular wait.

use vstd::prelude::*;

use crate::ast::{ItemV, StmtV};
use crate::flow::{
    calls_of, calls_upto, flow_bindings, flow_respects_calls, flowing_externs, flowing_funcs, flows,
    flows_by, is_binding, lemma_flow_known, stmt_calls, CallV, TargetV,
};
use crate::frontend::{
    all_declared, all_same, analyzed, apply_all, call_stmt, check_args, check_locks, counted_held,
    cpu, emit, emit_preemption, entry_of, entry_place, extends, extern_acquires, fail_arity,
    grow_all, grow_entry, has_isr, inside_ordered, inside_with, last_index, lemma_apply_all_extends,
    lemma_apply_extern_extends, lemma_block_extends, lemma_emit_extends,
    lemma_emit_preemption_extends, lemma_extends_trans, lemma_grow_all_extends, lemma_grow_extends,
    lemma_stmt_extends, lock_classes, lowering, monotone, no_state, prefix, run_block, run_stmt,
    run_upto, seed_all, seeded, site_at, turn, turns, FrameV, Key, PlaceV, ScopeV, StateV,
    MAX_ANALYSES, MAX_DEPTH,
};
use crate::havender::{lemma_edge_forward, order_respects_every_edge, place};
use crate::model::{has_edge, EventV, ProgramV};
use crate::ordset::{lemma_sorted_set, sorted};
use crate::semantics::{
    circular, enters, enters_by, lock_set, lookup, of_classes, possible_wait, preemptible,
    reachable, reached_in, started, taken_before, waits_at, waits_in_extern, Res, ThreadV, WaitV,
};
use crate::solver::{classes, verdict, OutcomeV};
use crate::tables::{is_class, lemma_tables_finite, tables_of, TablesV};
use crate::text::Name;

verus! {

/// Some event acquires `class` with all of `held` held.
pub open spec fn has_event(st: StateV, held: Set<Name>, class: Name) -> bool {
    exists|i: int|
        0 <= i < st.events.len() && (#[trigger] st.events[i]).acquires == class && forall|h: Name|
            held.contains(h) ==> st.events[i].held.contains(h)
}

/// Some event of the function acquires `class` at the site.
pub open spec fn is_noted(st: StateV, function: Name, site: Name, class: Name) -> bool {
    exists|i: int|
        0 <= i < st.events.len() && (#[trigger] st.events[i]).function == function
            && st.events[i].site == site && st.events[i].acquires == class
}

/// Every argument is a parameter, a function or an extern.
pub open spec fn are_defined(t: TablesV, params: Seq<Name>, args: Seq<Name>) -> bool {
    forall|i: int|
        0 <= i < args.len() ==> params.contains(#[trigger] args[i]) || t.funcs.contains_key(args[i])
            || t.externs.contains_key(args[i])
}

/// The arguments suit the callee: a function takes as many as it has parameters,
/// an extern takes none, and all of them are defined.
pub open spec fn suits(t: TablesV, params: Seq<Name>, callee: Name, args: Seq<Name>) -> bool {
    if params.contains(callee) {
        are_defined(t, params, args)
    } else if t.funcs.contains_key(callee) {
        args.len() == t.funcs[callee].params.len() && are_defined(t, params, args)
    } else {
        t.externs.contains_key(callee) && args.len() == 0
    }
}

/// Where the callee is an extern, each of its classes has been recorded as acquired
/// by the extern at the line of the call.
pub open spec fn extern_noted(
    c: ScopeV,
    st: StateV,
    params: Seq<Name>,
    callee: Name,
    line: nat,
) -> bool {
    !params.contains(callee) && !c.t.funcs.contains_key(callee) && c.t.externs.contains_key(callee)
        ==> forall|i: int|
        0 <= i < c.t.externs[callee].len() ==> is_noted(
            st,
            callee,
            site_at(c.file, line),
            #[trigger] c.t.externs[callee][i],
        )
}

/// The preemption of the lock has been recorded, where there is any.
pub open spec fn has_preemption(c: ScopeV, st: StateV, class: Name, masked: bool) -> bool {
    has_isr(c.t) && !masked ==> has_event(st, Set::<Name>::empty().insert(class), cpu())
}

/// The function can be entered with all of `held` held.
pub open spec fn can_enter(st: StateV, k: Key, held: Set<Name>) -> bool {
    st.entry.contains_key(k) && held.subset_of(st.entry[k])
}

/// The acquisitions of an extern have been recorded.
pub open spec fn extern_recorded(
    c: ScopeV,
    st: StateV,
    acquires: Seq<Name>,
    held: Set<Name>,
    masked: bool,
) -> bool {
    forall|i: int|
        0 <= i < acquires.len() ==> #[trigger] turn_recorded(c, st, acquires, i, held, masked)
}

/// The acquisition number `i` of an extern has been recorded.
pub open spec fn turn_recorded(
    c: ScopeV,
    st: StateV,
    acquires: Seq<Name>,
    i: int,
    held: Set<Name>,
    masked: bool,
) -> bool {
    &&& has_event(st, held.union(acquires.take(i).to_set()), acquires[i])
    &&& has_preemption(c, st, acquires[i], masked)
}

/// The call of one target has been recorded.
pub open spec fn target_recorded(
    c: ScopeV,
    st: StateV,
    x: TargetV,
    held: Set<Name>,
    masked: bool,
) -> bool {
    match x {
        TargetV::Func(g) => can_enter(st, (g, masked), held),
        TargetV::Extern(e) => extern_recorded(c, st, c.t.externs[e], held, masked),
    }
}

/// The call statement has been recorded.
pub open spec fn call_recorded(
    c: ScopeV,
    st: StateV,
    frame: FrameV,
    callee: Name,
    held: Set<Name>,
    masked: bool,
) -> bool {
    if frame.params.contains(callee) {
        forall|x: TargetV| #[trigger]
            flows(c.t, frame.name, callee, x) ==> target_recorded(c, st, x, held, masked)
    } else if c.t.funcs.contains_key(callee) {
        target_recorded(c, st, TargetV::Func(callee), held, masked)
    } else {
        c.t.externs.contains_key(callee) && target_recorded(
            c,
            st,
            TargetV::Extern(callee),
            held,
            masked,
        )
    }
}

/// Everything that the statement does has been recorded.
pub open spec fn stmt_recorded(c: ScopeV, st: StateV, frame: FrameV, s: StmtV, p: PlaceV) -> bool
    decreases s,
{
    match s {
        StmtV::With { lock, line, body } => {
            let class = c.t.lock_class[lock];
            let idx = c.t.lock_index[lock];
            &&& c.t.lock_class.contains_key(lock)
            &&& has_event(st, counted_held(p, class, idx), class)
            &&& is_noted(st, frame.name, site_at(c.file, line), class)
            &&& has_preemption(c, st, class, p.masked)
            &&& block_recorded(c, st, frame, body, body.len() as int, inside_with(p, class, idx))
        },
        StmtV::Ordered { locks, line, body } => {
            let q = lock_classes(c.t, locks);
            &&& all_declared(c.t, locks)
            &&& all_same(q)
            &&& locks.len() > 0 ==> {
                &&& has_event(st, p.held, q[0])
                &&& is_noted(st, frame.name, site_at(c.file, line), q[0])
                &&& has_preemption(c, st, q[0], p.masked)
                &&& block_recorded(
                    c,
                    st,
                    frame,
                    body,
                    body.len() as int,
                    inside_ordered(c.t, p, locks),
                )
            }
        },
        StmtV::Couple { class, line, body } => {
            let coupled = if p.coupled.contains_key(class) {
                p.coupled
            } else {
                p.coupled.insert(class, None)
            };
            &&& is_class(c.t, class)
            &&& !(p.held.contains(class) && !p.coupled.contains_key(class))
            &&& block_recorded(
                c,
                st,
                frame,
                body,
                body.len() as int,
                PlaceV { coupled, depth: p.depth + 1, ..p },
            )
        },
        StmtV::Mask { body } => block_recorded(
            c,
            st,
            frame,
            body,
            body.len() as int,
            PlaceV { masked: true, depth: p.depth + 1, ..p },
        ),
        StmtV::Call { callee, args, line } => {
            &&& call_recorded(c, st, frame, callee, p.held, p.masked)
            &&& suits(c.t, frame.params, callee, args)
            &&& extern_noted(c, st, frame.params, callee, line)
        },
    }
}

/// Everything that the first `n` statements do has been recorded.
pub open spec fn block_recorded(
    c: ScopeV,
    st: StateV,
    frame: FrameV,
    block: Seq<StmtV>,
    n: int,
    p: PlaceV,
) -> bool
    decreases block, n,
{
    if 0 < n <= block.len() {
        block_recorded(c, st, frame, block, n - 1, p) && stmt_recorded(
            c,
            st,
            frame,
            block[n - 1],
            p,
        )
    } else {
        true
    }
}

/// `b` holds all that `a` holds.
pub open spec fn includes_state(a: StateV, b: StateV) -> bool {
    &&& prefix(a.events, b.events)
    &&& forall|k: Key| #[trigger]
        a.entry.contains_key(k) ==> b.entry.contains_key(k) && a.entry[k].subset_of(b.entry[k])
}

proof fn lemma_event_stays(a: StateV, b: StateV, held: Set<Name>, class: Name)
    requires
        includes_state(a, b),
        has_event(a, held, class),
    ensures
        has_event(b, held, class),
{
    let i = choose|i: int|
        0 <= i < a.events.len() && (#[trigger] a.events[i]).acquires == class && forall|h: Name|
            held.contains(h) ==> a.events[i].held.contains(h);
    assert(b.events.take(a.events.len() as int)[i] == a.events[i]);
    assert(b.events[i] == a.events[i]);
}

proof fn lemma_noted_stays(a: StateV, b: StateV, function: Name, site: Name, class: Name)
    requires
        includes_state(a, b),
        is_noted(a, function, site, class),
    ensures
        is_noted(b, function, site, class),
{
    let i = choose|i: int|
        0 <= i < a.events.len() && (#[trigger] a.events[i]).function == function
            && a.events[i].site == site && a.events[i].acquires == class;
    assert(b.events.take(a.events.len() as int)[i] == a.events[i]);
    assert(b.events[i] == a.events[i]);
}

proof fn lemma_extern_noted_stays(
    c: ScopeV,
    a: StateV,
    b: StateV,
    params: Seq<Name>,
    callee: Name,
    line: nat,
)
    requires
        includes_state(a, b),
        extern_noted(c, a, params, callee, line),
    ensures
        extern_noted(c, b, params, callee, line),
{
    if !params.contains(callee) && !c.t.funcs.contains_key(callee) && c.t.externs.contains_key(
        callee,
    ) {
        let q = c.t.externs[callee];
        assert forall|i: int| 0 <= i < q.len() implies is_noted(
            b,
            callee,
            site_at(c.file, line),
            #[trigger] q[i],
        ) by {
            lemma_noted_stays(a, b, callee, site_at(c.file, line), q[i]);
        }
    }
}

proof fn lemma_preemption_stays(c: ScopeV, a: StateV, b: StateV, class: Name, masked: bool)
    requires
        includes_state(a, b),
        has_preemption(c, a, class, masked),
    ensures
        has_preemption(c, b, class, masked),
{
    if has_isr(c.t) && !masked {
        lemma_event_stays(a, b, Set::<Name>::empty().insert(class), cpu());
    }
}

proof fn lemma_extern_stays(
    c: ScopeV,
    a: StateV,
    b: StateV,
    acquires: Seq<Name>,
    held: Set<Name>,
    masked: bool,
)
    requires
        includes_state(a, b),
        extern_recorded(c, a, acquires, held, masked),
    ensures
        extern_recorded(c, b, acquires, held, masked),
{
    assert forall|i: int| 0 <= i < acquires.len() implies #[trigger] turn_recorded(
        c,
        b,
        acquires,
        i,
        held,
        masked,
    ) by {
        assert(turn_recorded(c, a, acquires, i, held, masked));
        lemma_event_stays(a, b, held.union(acquires.take(i).to_set()), acquires[i]);
        lemma_preemption_stays(c, a, b, acquires[i], masked);
    }
}

proof fn lemma_target_stays(
    c: ScopeV,
    a: StateV,
    b: StateV,
    x: TargetV,
    held: Set<Name>,
    masked: bool,
)
    requires
        includes_state(a, b),
        target_recorded(c, a, x, held, masked),
    ensures
        target_recorded(c, b, x, held, masked),
{
    match x {
        TargetV::Func(g) => {
            assert(a.entry.contains_key((g, masked)));
        },
        TargetV::Extern(e) => {
            lemma_extern_stays(c, a, b, c.t.externs[e], held, masked);
        },
    }
}

proof fn lemma_call_stays(
    c: ScopeV,
    a: StateV,
    b: StateV,
    frame: FrameV,
    callee: Name,
    held: Set<Name>,
    masked: bool,
)
    requires
        includes_state(a, b),
        call_recorded(c, a, frame, callee, held, masked),
    ensures
        call_recorded(c, b, frame, callee, held, masked),
{
    if frame.params.contains(callee) {
        assert forall|x: TargetV| #[trigger] flows(c.t, frame.name, callee, x) implies target_recorded(
            c,
            b,
            x,
            held,
            masked,
        ) by {
            lemma_target_stays(c, a, b, x, held, masked);
        }
    } else if c.t.funcs.contains_key(callee) {
        lemma_target_stays(c, a, b, TargetV::Func(callee), held, masked);
    } else {
        lemma_target_stays(c, a, b, TargetV::Extern(callee), held, masked);
    }
}

proof fn lemma_stmt_stays(c: ScopeV, a: StateV, b: StateV, frame: FrameV, s: StmtV, p: PlaceV)
    requires
        includes_state(a, b),
        stmt_recorded(c, a, frame, s, p),
    ensures
        stmt_recorded(c, b, frame, s, p),
    decreases s,
{
    match s {
        StmtV::With { lock, line, body } => {
            let class = c.t.lock_class[lock];
            let idx = c.t.lock_index[lock];
            lemma_event_stays(a, b, counted_held(p, class, idx), class);
            lemma_noted_stays(a, b, frame.name, site_at(c.file, line), class);
            lemma_preemption_stays(c, a, b, class, p.masked);
            lemma_block_stays(c, a, b, frame, body, body.len() as int, inside_with(p, class, idx));
        },
        StmtV::Ordered { locks, line, body } => {
            let q = lock_classes(c.t, locks);
            if locks.len() > 0 {
                lemma_event_stays(a, b, p.held, q[0]);
                lemma_noted_stays(a, b, frame.name, site_at(c.file, line), q[0]);
                lemma_preemption_stays(c, a, b, q[0], p.masked);
                lemma_block_stays(
                    c,
                    a,
                    b,
                    frame,
                    body,
                    body.len() as int,
                    inside_ordered(c.t, p, locks),
                );
            }
        },
        StmtV::Couple { class, line, body } => {
            let coupled = if p.coupled.contains_key(class) {
                p.coupled
            } else {
                p.coupled.insert(class, None)
            };
            lemma_block_stays(
                c,
                a,
                b,
                frame,
                body,
                body.len() as int,
                PlaceV { coupled, depth: p.depth + 1, ..p },
            );
        },
        StmtV::Mask { body } => {
            lemma_block_stays(
                c,
                a,
                b,
                frame,
                body,
                body.len() as int,
                PlaceV { masked: true, depth: p.depth + 1, ..p },
            );
        },
        StmtV::Call { callee, args, line } => {
            lemma_call_stays(c, a, b, frame, callee, p.held, p.masked);
            lemma_extern_noted_stays(c, a, b, frame.params, callee, line);
        },
    }
}

proof fn lemma_block_stays(
    c: ScopeV,
    a: StateV,
    b: StateV,
    frame: FrameV,
    block: Seq<StmtV>,
    n: int,
    p: PlaceV,
)
    requires
        includes_state(a, b),
        block_recorded(c, a, frame, block, n, p),
    ensures
        block_recorded(c, b, frame, block, n, p),
    decreases block, n,
{
    if 0 < n <= block.len() {
        lemma_block_stays(c, a, b, frame, block, n - 1, p);
        lemma_stmt_stays(c, a, b, frame, block[n - 1], p);
    }
}

/// What functions can be entered with is finite.
pub open spec fn finite_state(st: StateV) -> bool {
    forall|k: Key| #[trigger] st.entry.contains_key(k) ==> st.entry[k].finite()
}

/// The program declares finitely many functions and externs.
pub open spec fn finite_scope(c: ScopeV) -> bool {
    c.t.funcs.dom().finite() && c.t.externs.dom().finite()
}

proof fn lemma_extends_includes(a: StateV, b: StateV)
    requires
        extends(a, b),
    ensures
        includes_state(a, b),
        b.errors.len() == 0 ==> a.errors.len() == 0,
        !b.aborted ==> !a.aborted,
{
}

proof fn lemma_emit_recorded(
    c: ScopeV,
    st: StateV,
    function: Name,
    line: nat,
    held: Set<Name>,
    class: Name,
)
    requires
        held.finite(),
    ensures
        has_event(emit(c, st, function, line, held, class), held, class),
        is_noted(emit(c, st, function, line, held, class), function, site_at(c.file, line), class),
{
    let st2 = emit(c, st, function, line, held, class);
    lemma_sorted_set(held);
    assert(st2.events[st.events.len() as int].acquires == class);
    assert forall|h: Name| held.contains(h) implies st2.events[st.events.len() as int].held.contains(
        h,
    ) by {
        assert(sorted(held).contains(h));
    }
}

proof fn lemma_preemption_recorded(
    c: ScopeV,
    st: StateV,
    function: Name,
    line: nat,
    class: Name,
    masked: bool,
)
    ensures
        has_preemption(c, emit_preemption(c, st, function, line, class, masked), class, masked),
{
    if has_isr(c.t) && !masked {
        lemma_emit_recorded(c, st, function, line, Set::<Name>::empty().insert(class), cpu());
    }
}

proof fn lemma_emit_both(
    c: ScopeV,
    st: StateV,
    function: Name,
    line: nat,
    held: Set<Name>,
    class: Name,
    masked: bool,
) -> (st2: StateV)
    requires
        held.finite(),
        finite_state(st),
    ensures
        st2 == emit_preemption(
            c,
            emit(c, st, function, line, held, class),
            function,
            line,
            class,
            masked,
        ),
        has_event(st2, held, class),
        is_noted(st2, function, site_at(c.file, line), class),
        has_preemption(c, st2, class, masked),
        extends(st, st2),
        finite_state(st2),
{
    let st1 = emit(c, st, function, line, held, class);
    let st2 = emit_preemption(c, st1, function, line, class, masked);
    lemma_emit_recorded(c, st, function, line, held, class);
    lemma_preemption_recorded(c, st1, function, line, class, masked);
    lemma_emit_extends(c, st, function, line, held, class);
    lemma_emit_preemption_extends(c, st1, function, line, class, masked);
    lemma_extends_trans(st, st1, st2);
    lemma_extends_includes(st1, st2);
    lemma_event_stays(st1, st2, held, class);
    lemma_noted_stays(st1, st2, function, site_at(c.file, line), class);
    st2
}

proof fn lemma_grow_recorded(st: StateV, k: Key, held: Set<Name>)
    requires
        finite_state(st),
        held.finite(),
    ensures
        can_enter(grow_entry(st, k, held), k, held),
        finite_state(grow_entry(st, k, held)),
{
    let st2 = grow_entry(st, k, held);
    assert(st2.entry == st.entry.insert(k, entry_of(st.entry, k).union(held)));
    assert forall|j: Key| #[trigger] st2.entry.contains_key(j) implies st2.entry[j].finite() by {
        if j != k {
            assert(st.entry.contains_key(j));
        } else if st.entry.contains_key(k) {
            assert(st.entry[k].finite());
        }
    }
}

proof fn lemma_grow_all_recorded(st: StateV, fs: Seq<Name>, masked: bool, held: Set<Name>)
    requires
        finite_state(st),
        held.finite(),
    ensures
        forall|i: int|
            0 <= i < fs.len() ==> can_enter(
                grow_all(st, fs, masked, held),
                (#[trigger] fs[i], masked),
                held,
            ),
        finite_state(grow_all(st, fs, masked, held)),
    decreases fs.len(),
{
    if fs.len() > 0 {
        let r = fs.drop_last();
        let st1 = grow_all(st, r, masked, held);
        let st2 = grow_all(st, fs, masked, held);
        lemma_grow_all_recorded(st, r, masked, held);
        lemma_grow_recorded(st1, (fs.last(), masked), held);
        lemma_grow_extends(st1, (fs.last(), masked), held);
        assert forall|i: int| 0 <= i < fs.len() implies can_enter(
            st2,
            (#[trigger] fs[i], masked),
            held,
        ) by {
            if i < r.len() {
                assert(r[i] == fs[i]);
                assert(st1.entry.contains_key((fs[i], masked)));
            }
        }
    }
}

proof fn lemma_extern_acquires_recorded(
    c: ScopeV,
    st: StateV,
    name: Name,
    line: nat,
    held: Set<Name>,
    masked: bool,
    acquires: Seq<Name>,
)
    requires
        finite_state(st),
        held.finite(),
    ensures
        extern_recorded(
            c,
            extern_acquires(c, st, name, line, held, masked, acquires),
            acquires,
            held,
            masked,
        ),
        finite_state(extern_acquires(c, st, name, line, held, masked, acquires)),
    decreases acquires.len(),
{
    if acquires.len() > 0 {
        let r = acquires.drop_last();
        let st1 = extern_acquires(c, st, name, line, held, masked, r);
        lemma_extern_acquires_recorded(c, st, name, line, held, masked, r);
        let st2 = lemma_emit_both(
            c,
            st1,
            name,
            line,
            held.union(r.to_set()),
            acquires.last(),
            masked,
        );
        lemma_extends_includes(st1, st2);
        lemma_extern_stays(c, st1, st2, r, held, masked);
        assert forall|i: int| 0 <= i < acquires.len() implies #[trigger] turn_recorded(
            c,
            st2,
            acquires,
            i,
            held,
            masked,
        ) by {
            if i < r.len() {
                assert(turn_recorded(c, st2, r, i, held, masked));
                assert(r[i] == acquires[i]);
                assert(r.take(i) =~= acquires.take(i));
            } else {
                assert(acquires.take(i) =~= r);
            }
        }
    }
}

proof fn lemma_extern_acquires_noted(
    c: ScopeV,
    st: StateV,
    name: Name,
    line: nat,
    held: Set<Name>,
    masked: bool,
    acquires: Seq<Name>,
)
    ensures
        forall|i: int|
            0 <= i < acquires.len() ==> is_noted(
                extern_acquires(c, st, name, line, held, masked, acquires),
                name,
                site_at(c.file, line),
                #[trigger] acquires[i],
            ),
    decreases acquires.len(),
{
    if acquires.len() > 0 {
        let before = acquires.drop_last();
        let n = before.len() as int;
        let class = acquires.last();
        let site = site_at(c.file, line);
        lemma_extern_acquires_noted(c, st, name, line, held, masked, before);
        let st1 = extern_acquires(c, st, name, line, held, masked, before);
        let st2 = emit(c, st1, name, line, held.union(before.to_set()), class);
        let st3 = emit_preemption(c, st2, name, line, class, masked);
        lemma_emit_extends(c, st1, name, line, held.union(before.to_set()), class);
        lemma_emit_preemption_extends(c, st2, name, line, class, masked);
        lemma_extends_includes(st1, st2);
        lemma_extends_includes(st2, st3);
        assert(st2.events[st1.events.len() as int].function == name);
        assert(is_noted(st2, name, site, class));
        lemma_noted_stays(st2, st3, name, site, class);
        assert forall|i: int| 0 <= i < acquires.len() implies is_noted(
            st3,
            name,
            site,
            #[trigger] acquires[i],
        ) by {
            if i < n {
                assert(before[i] == acquires[i]);
                lemma_noted_stays(st1, st2, name, site, before[i]);
                lemma_noted_stays(st2, st3, name, site, before[i]);
            }
        }
    }
}

proof fn lemma_apply_all_recorded(
    c: ScopeV,
    st: StateV,
    es: Seq<Name>,
    args: Seq<Name>,
    line: nat,
    held: Set<Name>,
    masked: bool,
)
    requires
        finite_state(st),
        held.finite(),
        forall|i: int| 0 <= i < es.len() ==> c.t.externs.contains_key(#[trigger] es[i]),
    ensures
        apply_all(c, st, es, args, line, held, masked).errors.len() == 0 ==> forall|i: int|
            0 <= i < es.len() ==> extern_recorded(
                c,
                apply_all(c, st, es, args, line, held, masked),
                c.t.externs[#[trigger] es[i]],
                held,
                masked,
            ),
        finite_state(apply_all(c, st, es, args, line, held, masked)),
    decreases es.len(),
{
    if es.len() > 0 {
        let r = es.drop_last();
        let st1 = apply_all(c, st, r, args, line, held, masked);
        let st2 = apply_all(c, st, es, args, line, held, masked);
        assert forall|i: int| 0 <= i < r.len() implies c.t.externs.contains_key(
            #[trigger] r[i],
        ) by {
            assert(r[i] == es[i]);
        }
        lemma_apply_all_recorded(c, st, r, args, line, held, masked);
        lemma_apply_extern_extends(c, st1, es.last(), args, line, held, masked);
        lemma_extends_includes(st1, st2);
        assert(c.t.externs.contains_key(es[es.len() - 1]));
        lemma_extern_acquires_recorded(
            c,
            st1,
            es.last(),
            line,
            held,
            masked,
            c.t.externs[es.last()],
        );
        if st2.errors.len() == 0 {
            assert forall|i: int| 0 <= i < es.len() implies extern_recorded(
                c,
                st2,
                c.t.externs[#[trigger] es[i]],
                held,
                masked,
            ) by {
                if i < r.len() {
                    assert(r[i] == es[i]);
                    lemma_extern_stays(c, st1, st2, c.t.externs[es[i]], held, masked);
                }
            }
        }
    }
}

pub proof fn lemma_check_args_same(
    c: ScopeV,
    st: StateV,
    params: Seq<Name>,
    args: Seq<Name>,
    line: nat,
)
    ensures
        check_args(c, st, params, args, line).entry == st.entry,
        check_args(c, st, params, args, line).errors.len() == 0 ==> are_defined(
            c.t,
            params,
            args,
        ),
    decreases args.len(),
{
    if args.len() > 0 {
        let r = args.drop_last();
        lemma_check_args_same(c, st, params, r, line);
        if check_args(c, st, params, args, line).errors.len() == 0 {
            assert forall|i: int| 0 <= i < args.len() implies params.contains(#[trigger] args[i])
                || c.t.funcs.contains_key(args[i]) || c.t.externs.contains_key(args[i]) by {
                if i < r.len() {
                    assert(r[i] == args[i]);
                }
            }
        }
    }
}

pub proof fn lemma_check_locks_same(c: ScopeV, st: StateV, locks: Seq<Name>, line: nat)
    ensures
        check_locks(c, st, locks, line).entry == st.entry,
        check_locks(c, st, locks, line).errors.len() == 0 ==> all_declared(c.t, locks),
    decreases locks.len(),
{
    if locks.len() > 0 {
        let r = locks.drop_last();
        lemma_check_locks_same(c, st, r, line);
        if check_locks(c, st, locks, line).errors.len() == 0 {
            assert forall|i: int| 0 <= i < locks.len() implies c.t.lock_class.contains_key(
                #[trigger] locks[i],
            ) by {
                if i < r.len() {
                    assert(r[i] == locks[i]);
                }
            }
        }
    }
}

/// What flows to a parameter is found in the sorted lists of its targets.
pub proof fn lemma_sorted_targets(c: ScopeV, f: Name, p: Name, x: TargetV)
    requires
        finite_scope(c),
    ensures
        match x {
            TargetV::Func(g) => sorted(flowing_funcs(c.t, f, p)).contains(g) <==> flows(
                c.t,
                f,
                p,
                x,
            ),
            TargetV::Extern(e) => sorted(flowing_externs(c.t, f, p)).contains(e) <==> flows(
                c.t,
                f,
                p,
                x,
            ),
        },
{
    let fs = flowing_funcs(c.t, f, p);
    let es = flowing_externs(c.t, f, p);
    assert forall|g: Name| fs.contains(g) implies c.t.funcs.dom().contains(g) by {
        let n = choose|n: nat| flows_by(c.t, n, f, p, TargetV::Func(g));
        lemma_flow_known(c.t, n, f, p, TargetV::Func(g));
    }
    assert forall|e: Name| es.contains(e) implies c.t.externs.dom().contains(e) by {
        let n = choose|n: nat| flows_by(c.t, n, f, p, TargetV::Extern(e));
        lemma_flow_known(c.t, n, f, p, TargetV::Extern(e));
    }
    vstd::set_lib::lemma_len_subset(fs, c.t.funcs.dom());
    vstd::set_lib::lemma_len_subset(es, c.t.externs.dom());
    lemma_sorted_set(fs);
    lemma_sorted_set(es);
}

proof fn lemma_call_recorded(
    c: ScopeV,
    st: StateV,
    frame: FrameV,
    callee: Name,
    args: Seq<Name>,
    line: nat,
    held: Set<Name>,
    masked: bool,
)
    requires
        finite_scope(c),
        finite_state(st),
        held.finite(),
    ensures
        finite_state(call_stmt(c, st, frame, callee, args, line, held, masked)),
        call_stmt(c, st, frame, callee, args, line, held, masked).errors.len() == 0
            ==> call_recorded(
            c,
            call_stmt(c, st, frame, callee, args, line, held, masked),
            frame,
            callee,
            held,
            masked,
        ) && suits(c.t, frame.params, callee, args) && extern_noted(
            c,
            call_stmt(c, st, frame, callee, args, line, held, masked),
            frame.params,
            callee,
            line,
        ),
{
    let end = call_stmt(c, st, frame, callee, args, line, held, masked);
    let st1 = check_args(c, st, frame.params, args, line);
    lemma_check_args_same(c, st, frame.params, args, line);
    if frame.params.contains(callee) {
        let fs = sorted(flowing_funcs(c.t, frame.name, callee));
        let es = sorted(flowing_externs(c.t, frame.name, callee));
        let st2 = if fs.len() == 1 && es.len() == 0 && c.t.funcs.contains_key(fs[0])
            && c.t.funcs[fs[0]].params.len() != args.len() {
            fail_arity(c, st1, line, fs[0], c.t.funcs[fs[0]].params.len(), args.len())
        } else {
            st1
        };
        assert(finite_state(st2));
        let st3 = grow_all(st2, fs, masked, held);
        lemma_grow_all_recorded(st2, fs, masked, held);
        assert forall|i: int| 0 <= i < es.len() implies c.t.externs.contains_key(
            #[trigger] es[i],
        ) by {
            let x = TargetV::Extern(es[i]);
            lemma_sorted_targets(c, frame.name, callee, x);
            assert(es.contains(es[i]));
            let n = choose|n: nat| flows_by(c.t, n, frame.name, callee, x);
            lemma_flow_known(c.t, n, frame.name, callee, x);
        }
        lemma_apply_all_recorded(c, st3, es, args, line, held, masked);
        lemma_apply_all_extends(c, st3, es, args, line, held, masked);
        lemma_extends_includes(st3, end);
        lemma_grow_all_extends(st2, fs, masked, held);
        if end.errors.len() == 0 {
            assert(st2.errors.len() == 0);
            assert(st1.errors.len() == 0);
            assert forall|x: TargetV| #[trigger]
                flows(c.t, frame.name, callee, x) implies target_recorded(
                c,
                end,
                x,
                held,
                masked,
            ) by {
                lemma_sorted_targets(c, frame.name, callee, x);
                match x {
                    TargetV::Func(g) => {
                        let i = choose|i: int| 0 <= i < fs.len() && fs[i] == g;
                        assert(can_enter(st3, (fs[i], masked), held));
                        lemma_target_stays(c, st3, end, x, held, masked);
                    },
                    TargetV::Extern(e) => {
                        let i = choose|i: int| 0 <= i < es.len() && es[i] == e;
                        assert(extern_recorded(c, end, c.t.externs[es[i]], held, masked));
                    },
                }
            }
        }
    } else if c.t.funcs.contains_key(callee) {
        lemma_grow_recorded(st1, (callee, masked), held);
    } else if c.t.externs.contains_key(callee) {
        lemma_extern_acquires_recorded(
            c,
            st,
            callee,
            line,
            held,
            masked,
            c.t.externs[callee],
        );
        lemma_extern_acquires_noted(c, st, callee, line, held, masked, c.t.externs[callee]);
    }
}

/// The analysis of a statement records all that the statement does.
proof fn lemma_stmt_recorded(c: ScopeV, st: StateV, frame: FrameV, s: StmtV, p: PlaceV)
    requires
        finite_scope(c),
        finite_state(st),
        p.held.finite(),
    ensures
        finite_state(run_stmt(c, st, frame, s, p)),
        run_stmt(c, st, frame, s, p).errors.len() == 0 && !run_stmt(c, st, frame, s, p).aborted
            ==> stmt_recorded(c, run_stmt(c, st, frame, s, p), frame, s, p),
    decreases s,
{
    let end = run_stmt(c, st, frame, s, p);
    match s {
        StmtV::With { lock, line, body } => {
            if c.t.lock_class.contains_key(lock) {
                let class = c.t.lock_class[lock];
                let idx = c.t.lock_index[lock];
                let held = counted_held(p, class, idx);
                let st2 = lemma_emit_both(c, st, frame.name, line, held, class, p.masked);
                let q = inside_with(p, class, idx);
                lemma_inner_recorded(c, st2, frame, body, q);
                lemma_block_extends(c, st2, frame, body, q);
                lemma_extends_includes(st2, end);
                lemma_event_stays(st2, end, held, class);
                lemma_noted_stays(st2, end, frame.name, site_at(c.file, line), class);
                lemma_preemption_stays(c, st2, end, class, p.masked);
            }
        },
        StmtV::Ordered { locks, line, body } => {
            let st1 = check_locks(c, st, locks, line);
            let q = lock_classes(c.t, locks);
            lemma_check_locks_same(c, st, locks, line);
            if !all_declared(c.t, locks) || locks.len() == 0 {
            } else if !all_same(q) {
            } else {
                let st3 = lemma_emit_both(c, st1, frame.name, line, p.held, q[0], p.masked);
                let r = inside_ordered(c.t, p, locks);
                lemma_inner_recorded(c, st3, frame, body, r);
                lemma_block_extends(c, st3, frame, body, r);
                lemma_extends_includes(st3, end);
                lemma_event_stays(st3, end, p.held, q[0]);
                lemma_noted_stays(st3, end, frame.name, site_at(c.file, line), q[0]);
                lemma_preemption_stays(c, st3, end, q[0], p.masked);
            }
        },
        StmtV::Couple { class, line, body } => {
            let coupled = if p.coupled.contains_key(class) {
                p.coupled
            } else {
                p.coupled.insert(class, None)
            };
            let q = PlaceV { coupled, depth: p.depth + 1, ..p };
            lemma_inner_recorded(c, st, frame, body, q);
        },
        StmtV::Mask { body } => {
            let q = PlaceV { masked: true, depth: p.depth + 1, ..p };
            lemma_inner_recorded(c, st, frame, body, q);
        },
        StmtV::Call { callee, args, line } => {
            lemma_call_recorded(c, st, frame, callee, args, line, p.held, p.masked);
        },
    }
}

proof fn lemma_inner_recorded(c: ScopeV, st: StateV, frame: FrameV, block: Seq<StmtV>, p: PlaceV)
    requires
        finite_scope(c),
        finite_state(st),
        p.held.finite(),
    ensures
        finite_state(run_block(c, st, frame, block, p)),
        run_block(c, st, frame, block, p).errors.len() == 0 && !run_block(
            c,
            st,
            frame,
            block,
            p,
        ).aborted ==> block_recorded(
            c,
            run_block(c, st, frame, block, p),
            frame,
            block,
            block.len() as int,
            p,
        ),
    decreases block, block.len() + 1,
{
    if !st.aborted && p.depth <= MAX_DEPTH {
        lemma_upto_recorded(c, st, frame, block, block.len() as int, p);
    }
}

proof fn lemma_upto_recorded(
    c: ScopeV,
    st: StateV,
    frame: FrameV,
    block: Seq<StmtV>,
    n: int,
    p: PlaceV,
)
    requires
        finite_scope(c),
        finite_state(st),
        p.held.finite(),
    ensures
        finite_state(run_upto(c, st, frame, block, n, p)),
        run_upto(c, st, frame, block, n, p).errors.len() == 0 && !run_upto(
            c,
            st,
            frame,
            block,
            n,
            p,
        ).aborted ==> block_recorded(
            c,
            run_upto(c, st, frame, block, n, p),
            frame,
            block,
            n,
            p,
        ),
    decreases block, n,
{
    if 0 < n <= block.len() {
        let st1 = run_upto(c, st, frame, block, n - 1, p);
        let end = run_upto(c, st, frame, block, n, p);
        lemma_upto_recorded(c, st, frame, block, n - 1, p);
        lemma_stmt_recorded(c, st1, frame, block[n - 1], p);
        lemma_stmt_extends(c, st1, frame, block[n - 1], p);
        lemma_extends_includes(st1, end);
        if end.errors.len() == 0 && !end.aborted {
            lemma_block_stays(c, st1, end, frame, block, n - 1, p);
        }
    }
}

/// Everything that the function does has been recorded, for all that it can be
/// entered with.
pub open spec fn key_recorded(c: ScopeV, st: StateV, k: Key) -> bool {
    c.t.funcs.contains_key(k.0) ==> block_recorded(
        c,
        st,
        FrameV { name: k.0, params: c.t.funcs[k.0].params },
        c.t.funcs[k.0].body,
        c.t.funcs[k.0].body.len() as int,
        entry_place(st.entry, k),
    )
}

/// What a task or an interrupt handler holds when it starts.
pub open spec fn start_held(t: TablesV, f: Name) -> Set<Name> {
    if t.funcs[f].is_isr {
        Set::<Name>::empty().insert(cpu())
    } else {
        Set::empty()
    }
}

/// What holds before and after every turn: each function that can be entered is
/// queued or recorded.
spec fn turn_inv(c: ScopeV, st: StateV) -> bool {
    &&& finite_state(st)
    &&& forall|f: Name| #[trigger]
        c.t.funcs.contains_key(f) ==> can_enter(
            st,
            (f, c.t.funcs[f].is_isr),
            start_held(c.t, f),
        )
    &&& st.errors.len() == 0 && !st.aborted ==> forall|k: Key| #[trigger]
        st.entry.contains_key(k) ==> st.queue.contains(k) || key_recorded(c, st, k)
    &&& st.aborted ==> st.incomplete is Some
    &&& st.analyses > MAX_ANALYSES ==> st.aborted
}

proof fn lemma_turn(c: ScopeV, st: StateV)
    requires
        finite_scope(c),
        turn_inv(c, st),
    ensures
        turn_inv(c, turn(c, st)),
        st.queue.len() == 0 || st.aborted || turn(c, st).analyses == st.analyses + 1,
{
    if st.queue.len() > 0 && !st.aborted {
        let k = st.queue.last();
        let st0 = StateV { queue: st.queue.drop_last(), ..st };
        let st1 = StateV { analyses: st.analyses + 1, ..st0 };
        let end = turn(c, st);
        if st1.analyses > MAX_ANALYSES {
        } else if c.t.funcs.contains_key(k.0) {
            let f = c.t.funcs[k.0];
            let frame = FrameV { name: k.0, params: f.params };
            let p = entry_place(st1.entry, k);
            assert(p.held.finite()) by {
                if st1.entry.contains_key(k) {
                    assert(st.entry.contains_key(k));
                }
            }
            assert(finite_state(st1)) by {
                assert forall|j: Key| #[trigger] st1.entry.contains_key(j) implies st1.entry[j].finite() by {
                    assert(st.entry.contains_key(j));
                }
            }
            lemma_inner_recorded(c, st1, frame, f.body, p);
            lemma_block_extends(c, st1, frame, f.body, p);
            lemma_extends_includes(st1, end);
            assert forall|g: Name| #[trigger] c.t.funcs.contains_key(g) implies can_enter(
                end,
                (g, c.t.funcs[g].is_isr),
                start_held(c.t, g),
            ) by {
                assert(can_enter(st, (g, c.t.funcs[g].is_isr), start_held(c.t, g)));
                assert(st1.entry.contains_key((g, c.t.funcs[g].is_isr)));
            }
            if end.errors.len() == 0 && !end.aborted {
                assert forall|j: Key| #[trigger] end.entry.contains_key(j) implies end.queue.contains(
                    j,
                ) || key_recorded(c, end, j) by {
                    if !end.queue.contains(j) {
                        assert(st1.entry.contains_key(j) && st1.entry[j] == end.entry[j]);
                        assert(entry_place(end.entry, j) == entry_place(st.entry, j));
                        if j != k {
                            assert(st.entry.contains_key(j));
                            if st.queue.contains(j) {
                                lemma_queue_stays(st.queue, end.queue, j);
                            }
                            assert(includes_state(st, end)) by {
                                assert forall|h: Key| #[trigger] st.entry.contains_key(h) implies end.entry.contains_key(
                                    h,
                                ) && st.entry[h].subset_of(end.entry[h]) by {
                                    assert(st1.entry.contains_key(h));
                                }
                            }
                            if c.t.funcs.contains_key(j.0) {
                                lemma_block_stays(
                                    c,
                                    st,
                                    end,
                                    FrameV { name: j.0, params: c.t.funcs[j.0].params },
                                    c.t.funcs[j.0].body,
                                    c.t.funcs[j.0].body.len() as int,
                                    entry_place(st.entry, j),
                                );
                            }
                        }
                    }
                }
            }
        } else {
            assert forall|j: Key| #[trigger] end.entry.contains_key(j) && end.errors.len() == 0
                && !end.aborted implies end.queue.contains(j) || key_recorded(c, end, j) by {
                if j != k && st.queue.contains(j) {
                    assert(prefix(end.queue, end.queue)) by {
                        assert(end.queue.take(end.queue.len() as int) =~= end.queue);
                    }
                    lemma_queue_stays(st.queue, end.queue, j);
                } else if j != k && c.t.funcs.contains_key(j.0) {
                    assert(key_recorded(c, st, j));
                    assert(includes_state(st, end)) by {
                        assert(end.events.take(st.events.len() as int) =~= st.events);
                    }
                    lemma_block_stays(
                        c,
                        st,
                        end,
                        FrameV { name: j.0, params: c.t.funcs[j.0].params },
                        c.t.funcs[j.0].body,
                        c.t.funcs[j.0].body.len() as int,
                        entry_place(st.entry, j),
                    );
                }
            }
        }
    }
}

proof fn lemma_queue_stays(a: Seq<Key>, b: Seq<Key>, k: Key)
    requires
        a.len() > 0,
        a.contains(k),
        k != a.last(),
        prefix(a.drop_last(), b),
    ensures
        b.contains(k),
{
    let i = choose|i: int| 0 <= i < a.len() && a[i] == k;
    assert(b.take(a.len() - 1)[i] == a.drop_last()[i]);
    assert(b[i] == k);
}

proof fn lemma_turns(c: ScopeV, st: StateV, n: nat)
    requires
        finite_scope(c),
        turn_inv(c, st),
        st.analyses == 0,
    ensures
        turn_inv(c, turns(c, st, n)),
        turns(c, st, n).queue.len() == 0 || turns(c, st, n).aborted || turns(c, st, n).analyses
            == n,
    decreases n,
{
    if n > 0 {
        lemma_turns(c, st, (n - 1) as nat);
        lemma_turn(c, turns(c, st, (n - 1) as nat));
    }
}

proof fn lemma_seed_all(c: ScopeV, st: StateV, fs: Seq<Name>)
    requires
        st == no_state(c.t),
    ensures
        ({
            let end = seed_all(c, st, fs);
            &&& end.errors == st.errors
            &&& end.analyses == 0
            &&& !end.aborted
            &&& finite_state(end)
            &&& forall|k: Key| #[trigger] end.entry.contains_key(k) ==> end.queue.contains(k)
            &&& forall|i: int|
                0 <= i < fs.len() ==> can_enter(
                    end,
                    (#[trigger] fs[i], c.t.funcs[fs[i]].is_isr),
                    start_held(c.t, fs[i]),
                )
        }),
    decreases fs.len(),
{
    if fs.len() > 0 {
        let r = fs.drop_last();
        let st1 = seed_all(c, st, r);
        let end = seed_all(c, st, fs);
        lemma_seed_all(c, st, r);
        let f = fs.last();
        let k = (f, c.t.funcs[f].is_isr);
        assert(end.entry == st1.entry.insert(
            k,
            entry_of(st1.entry, k).union(start_held(c.t, f)),
        ));
        assert forall|j: Key| #[trigger] end.entry.contains_key(j) implies end.queue.contains(j)
            && end.entry[j].finite() by {
            if j != k {
                assert(st1.entry.contains_key(j));
                let i = choose|i: int| 0 <= i < st1.queue.len() && st1.queue[i] == j;
                assert(end.queue[i] == j);
            } else {
                if st1.entry.contains_key(k) {
                    assert(st1.entry[k].finite());
                }
                if !st1.queue.contains(k) {
                    assert(end.queue[st1.queue.len() as int] == k);
                }
            }
        }
        assert forall|i: int| 0 <= i < fs.len() implies can_enter(
            end,
            (#[trigger] fs[i], c.t.funcs[fs[i]].is_isr),
            start_held(c.t, fs[i]),
        ) by {
            if i < r.len() {
                assert(r[i] == fs[i]);
                let j = (r[i], c.t.funcs[r[i]].is_isr);
                assert(can_enter(st1, j, start_held(c.t, r[i])));
            }
        }
    }
}

/// What the analysis leaves behind when it succeeds and completes: everything
/// that any function does, for all that it can be entered with, is recorded.
pub proof fn lemma_analyzed(c: ScopeV)
    requires
        finite_scope(c),
        analyzed(c).errors.len() == 0,
        analyzed(c).incomplete is None,
    ensures
        forall|f: Name| #[trigger]
            c.t.funcs.contains_key(f) ==> can_enter(
                analyzed(c),
                (f, c.t.funcs[f].is_isr),
                start_held(c.t, f),
            ),
        forall|k: Key| #[trigger]
            analyzed(c).entry.contains_key(k) ==> key_recorded(c, analyzed(c), k),
{
    let fs = sorted(c.t.funcs.dom());
    let st = no_state(c.t);
    lemma_seed_all(c, st, fs);
    lemma_sorted_set(c.t.funcs.dom());
    let start = seeded(c);
    assert(turn_inv(c, start)) by {
        assert forall|f: Name| #[trigger] c.t.funcs.contains_key(f) implies can_enter(
            start,
            (f, c.t.funcs[f].is_isr),
            start_held(c.t, f),
        ) by {
            assert(fs.contains(f));
            let i = choose|i: int| 0 <= i < fs.len() && fs[i] == f;
            assert(can_enter(
                start,
                (fs[i], c.t.funcs[fs[i]].is_isr),
                start_held(c.t, fs[i]),
            ));
        }
    }
    lemma_turns(c, start, (MAX_ANALYSES + 1) as nat);
    let end = analyzed(c);
    assert(!end.aborted);
    assert(end.queue.len() == 0);
    assert forall|k: Key| #[trigger] end.entry.contains_key(k) implies key_recorded(c, end, k) by {
        assert(end.queue.contains(k) || key_recorded(c, end, k));
    }
}

/// Every `ordered` statement inside the statement names a lock.
pub open spec fn names_locks_in(s: StmtV) -> bool
    decreases s,
{
    match s {
        StmtV::With { lock, line, body } => names_locks(body, body.len() as int),
        StmtV::Ordered { locks, line, body } => locks.len() > 0 && names_locks(
            body,
            body.len() as int,
        ),
        StmtV::Couple { class, line, body } => names_locks(body, body.len() as int),
        StmtV::Mask { body } => names_locks(body, body.len() as int),
        StmtV::Call { callee, args, line } => true,
    }
}

/// Every `ordered` statement inside the first `n` statements names a lock.
pub open spec fn names_locks(block: Seq<StmtV>, n: int) -> bool
    decreases block, n,
{
    if 0 < n <= block.len() {
        names_locks(block, n - 1) && names_locks_in(block[n - 1])
    } else {
        true
    }
}

/// Every `ordered` statement of the program names a lock, as the grammar asks.
pub open spec fn program_names_locks(t: TablesV) -> bool {
    forall|f: Name| #[trigger]
        t.funcs.contains_key(f) ==> names_locks(t.funcs[f].body, t.funcs[f].body.len() as int)
}

/// The class of a resource.
pub open spec fn class_of(t: TablesV, r: Res) -> Name {
    match r {
        Res::Lock(l) => t.lock_class[l],
        Res::Cpu => cpu(),
    }
}

/// The record `(end, p)` accounts for the thread `x`.
spec fn accounts(c: ScopeV, end: StateV, x: ThreadV, p: PlaceV) -> bool {
    let f = c.t.funcs[x.func];
    let n = x.block.len() as int;
    &&& c.t.funcs.contains_key(x.func)
    &&& forall|q: Name|
        f.params.contains(q) && #[trigger] x.env.contains_key(q) ==> flows(
            c.t,
            x.func,
            q,
            x.env[q],
        )
    &&& forall|j: int|
        0 <= j < calls_upto(x.block, n).len() ==> calls_of(f).contains(
            #[trigger] calls_upto(x.block, n)[j],
        )
    &&& block_recorded(c, end, FrameV { name: x.func, params: f.params }, x.block, n, p)
    &&& names_locks(x.block, n)
    &&& x.masked == p.masked
    &&& held_accounted(c, end, x, p)
}

/// The part of `accounts` that concerns what is held.
spec fn held_accounted(c: ScopeV, end: StateV, x: ThreadV, p: PlaceV) -> bool {
    &&& forall|r: Res| #[trigger] x.held.contains(r) ==> p.held.contains(class_of(c.t, r))
    &&& forall|r: Res| #[trigger]
        x.held.contains(r) && !x.masked && has_isr(c.t) ==> has_edge(
            end.events,
            class_of(c.t, r),
            cpu(),
        )
    &&& forall|r: Res| #[trigger]
        x.held.contains(r) && p.coupled.contains_key(class_of(c.t, r)) ==> r is Lock
            && p.coupled[class_of(c.t, r)] is Some && c.t.lock_index[r->Lock_0]
            <= p.coupled[class_of(c.t, r)]->0
    &&& forall|k: Name| #[trigger]
        p.coupled.contains_key(k) && p.coupled[k] is Some ==> p.held.contains(k)
}

pub proof fn lemma_event_edge(st: StateV, held: Set<Name>, class: Name, h: Name)
    requires
        has_event(st, held, class),
        held.contains(h),
    ensures
        has_edge(st.events, h, class),
{
    let i = choose|i: int|
        0 <= i < st.events.len() && (#[trigger] st.events[i]).acquires == class && forall|h: Name|
            held.contains(h) ==> st.events[i].held.contains(h);
    assert(st.events[i].held.contains(h));
}

proof fn lemma_block_at(
    c: ScopeV,
    st: StateV,
    frame: FrameV,
    block: Seq<StmtV>,
    n: int,
    p: PlaceV,
    i: int,
)
    requires
        block_recorded(c, st, frame, block, n, p),
        names_locks(block, n),
        0 <= i < n <= block.len(),
    ensures
        stmt_recorded(c, st, frame, block[i], p),
        names_locks_in(block[i]),
    decreases n,
{
    if i < n - 1 {
        lemma_block_at(c, st, frame, block, n - 1, p, i);
    }
}

proof fn lemma_calls_at(block: Seq<StmtV>, n: int, i: int, j: int) -> (k: int)
    requires
        0 <= i < n <= block.len(),
        0 <= j < stmt_calls(block[i]).len(),
    ensures
        0 <= k < calls_upto(block, n).len(),
        calls_upto(block, n)[k] == stmt_calls(block[i])[j],
    decreases n,
{
    if i < n - 1 {
        lemma_calls_at(block, n - 1, i, j)
    } else {
        calls_upto(block, n - 1).len() as int + j
    }
}

/// The record at one statement of the thread's block.
proof fn lemma_at(c: ScopeV, end: StateV, x: ThreadV, p: PlaceV, i: int)
    requires
        accounts(c, end, x, p),
        0 <= i < x.block.len(),
    ensures
        stmt_recorded(
            c,
            end,
            FrameV { name: x.func, params: c.t.funcs[x.func].params },
            x.block[i],
            p,
        ),
        names_locks_in(x.block[i]),
        forall|j: int|
            0 <= j < stmt_calls(x.block[i]).len() ==> calls_of(c.t.funcs[x.func]).contains(
                #[trigger] stmt_calls(x.block[i])[j],
            ),
{
    let n = x.block.len() as int;
    let f = c.t.funcs[x.func];
    lemma_block_at(
        c,
        end,
        FrameV { name: x.func, params: f.params },
        x.block,
        n,
        p,
        i,
    );
    assert forall|j: int| 0 <= j < stmt_calls(x.block[i]).len() implies calls_of(f).contains(
        #[trigger] stmt_calls(x.block[i])[j],
    ) by {
        let k = lemma_calls_at(x.block, n, i, j);
        assert(calls_of(f).contains(calls_upto(x.block, n)[k]));
    }
}

/// The calls inside a statement's body are calls of the function.
proof fn lemma_body_calls(c: ScopeV, x: ThreadV, y: ThreadV, s: StmtV)
    requires
        c.t.funcs.contains_key(x.func),
        enters_by(c.t, x, s, y),
        !(s is Call),
        forall|j: int|
            0 <= j < stmt_calls(s).len() ==> calls_of(c.t.funcs[x.func]).contains(
                #[trigger] stmt_calls(s)[j],
            ),
    ensures
        y.func == x.func,
        y.env == x.env,
        forall|j: int|
            0 <= j < calls_upto(y.block, y.block.len() as int).len() ==> calls_of(
                c.t.funcs[y.func],
            ).contains(#[trigger] calls_upto(y.block, y.block.len() as int)[j]),
{
    assert(stmt_calls(s) == calls_upto(y.block, y.block.len() as int));
}

/// No class is ordered before itself.
spec fn no_self(events: Seq<EventV>) -> bool {
    forall|k: Name| !#[trigger] has_edge(events, k, k)
}

/// The locks of its own class that a thread holds where it takes a lock come
/// before that lock.
proof fn lemma_with_climbs(
    c: ScopeV,
    end: StateV,
    x: ThreadV,
    p: PlaceV,
    lock: Name,
    r: Res,
)
    requires
        held_accounted(c, end, x, p),
        no_self(end.events),
        c.t.lock_class.contains_key(lock),
        has_event(
            end,
            counted_held(p, c.t.lock_class[lock], c.t.lock_index[lock]),
            c.t.lock_class[lock],
        ),
        x.held.contains(r),
    ensures
        class_of(c.t, r) == c.t.lock_class[lock] ==> r is Lock && c.t.lock_index[r->Lock_0]
            < c.t.lock_index[lock] && p.coupled.contains_key(c.t.lock_class[lock]),
        class_of(c.t, r) != c.t.lock_class[lock] ==> has_edge(
            end.events,
            class_of(c.t, r),
            c.t.lock_class[lock],
        ),
{
    let class = c.t.lock_class[lock];
    let idx = c.t.lock_index[lock];
    let held = counted_held(p, class, idx);
    let k = class_of(c.t, r);
    assert(p.held.contains(k));
    if k != class {
        lemma_event_edge(end, held, class, k);
    } else if !monotone(p.coupled, class, idx) {
        lemma_event_edge(end, held, class, class);
    }
}

proof fn lemma_enter_with(
    c: ScopeV,
    end: StateV,
    x: ThreadV,
    p: PlaceV,
    i: int,
    y: ThreadV,
) -> (r: PlaceV)
    requires
        accounts(c, end, x, p),
        no_self(end.events),
        0 <= i < x.block.len(),
        x.block[i] is With,
        enters_by(c.t, x, x.block[i], y),
    ensures
        accounts(c, end, y, r),
{
    lemma_at(c, end, x, p, i);
    lemma_body_calls(c, x, y, x.block[i]);
    let lock = x.block[i]->lock;
    let class = c.t.lock_class[lock];
    let idx = c.t.lock_index[lock];
    let q = inside_with(p, class, idx);
    assert(q.coupled.dom() =~= p.coupled.dom());
    if p.coupled.contains_key(class) && !monotone(p.coupled, class, idx) {
        lemma_event_edge(end, counted_held(p, class, idx), class, class);
    }
    assert forall|r: Res| #[trigger] y.held.contains(r) && q.coupled.contains_key(
        class_of(c.t, r),
    ) implies r is Lock && q.coupled[class_of(c.t, r)] is Some && c.t.lock_index[r->Lock_0]
        <= q.coupled[class_of(c.t, r)]->0 by {
        if r != Res::Lock(lock) {
            assert(x.held.contains(r));
            lemma_with_climbs(c, end, x, p, lock, r);
        }
    }
    assert forall|r: Res| #[trigger] y.held.contains(r) && !y.masked && has_isr(
        c.t,
    ) implies has_edge(end.events, class_of(c.t, r), cpu()) by {
        if r == Res::Lock(lock) {
            lemma_event_edge(end, Set::<Name>::empty().insert(class), cpu(), class);
        } else {
            assert(r == Res::Lock(lock) || x.held.contains(r));
        }
    }
    assert forall|r: Res| #[trigger] y.held.contains(r) implies q.held.contains(
        class_of(c.t, r),
    ) by {
        assert(r == Res::Lock(lock) || x.held.contains(r));
    }
    assert forall|k: Name| #[trigger]
        q.coupled.contains_key(k) && q.coupled[k] is Some implies q.held.contains(k) by {
        if k != class {
            assert(p.coupled.contains_key(k));
        }
    }
    q
}

proof fn lemma_last_index(t: TablesV, locks: Seq<Name>, l: Name)
    requires
        locks.contains(l),
    ensures
        t.lock_index[l] <= last_index(t, locks),
    decreases locks.len(),
{
    let i = choose|i: int| 0 <= i < locks.len() && locks[i] == l;
    if i < locks.len() - 1 {
        let r = locks.drop_last();
        assert(r[i] == l);
        lemma_last_index(t, r, l);
    }
}

proof fn lemma_enter_ordered(
    c: ScopeV,
    end: StateV,
    x: ThreadV,
    p: PlaceV,
    i: int,
    y: ThreadV,
) -> (r: PlaceV)
    requires
        accounts(c, end, x, p),
        no_self(end.events),
        0 <= i < x.block.len(),
        x.block[i] is Ordered,
        enters_by(c.t, x, x.block[i], y),
    ensures
        accounts(c, end, y, r),
{
    lemma_at(c, end, x, p, i);
    lemma_body_calls(c, x, y, x.block[i]);
    let locks = x.block[i]->locks;
    let classes = lock_classes(c.t, locks);
    let class = classes[0];
    assert(class == c.t.lock_class[locks[0]]);
    let q = inside_ordered(c.t, p, locks);
    if p.held.contains(class) {
        lemma_event_edge(end, p.held, class, class);
    }
    assert forall|r: Res| #[trigger] y.held.contains(r) implies x.held.contains(r) || (r is Lock
        && locks.contains(r->Lock_0) && class_of(c.t, r) == class) by {
        if !x.held.contains(r) {
            let l = r->Lock_0;
            let j = choose|j: int| 0 <= j < locks.len() && locks[j] == l;
            assert(classes[j] == classes[0]);
        }
    }
    assert forall|r: Res| #[trigger] y.held.contains(r) && q.coupled.contains_key(
        class_of(c.t, r),
    ) implies r is Lock && q.coupled[class_of(c.t, r)] is Some && c.t.lock_index[r->Lock_0]
        <= q.coupled[class_of(c.t, r)]->0 by {
        if x.held.contains(r) {
            assert(p.held.contains(class_of(c.t, r)));
        } else {
            lemma_last_index(c.t, locks, r->Lock_0);
        }
    }
    assert forall|r: Res| #[trigger] y.held.contains(r) && !y.masked && has_isr(
        c.t,
    ) implies has_edge(end.events, class_of(c.t, r), cpu()) by {
        if !x.held.contains(r) {
            lemma_event_edge(end, Set::<Name>::empty().insert(class), cpu(), class);
        }
    }
    q
}

proof fn lemma_enter_call(
    c: ScopeV,
    end: StateV,
    x: ThreadV,
    p: PlaceV,
    i: int,
    y: ThreadV,
) -> (r: PlaceV)
    requires
        accounts(c, end, x, p),
        program_names_locks(c.t),
        forall|k: Key| #[trigger] end.entry.contains_key(k) ==> key_recorded(c, end, k),
        0 <= i < x.block.len(),
        x.block[i] is Call,
        enters_by(c.t, x, x.block[i], y),
    ensures
        accounts(c, end, y, r),
{
    lemma_at(c, end, x, p, i);
    let t = c.t;
    let callee = x.block[i]->callee;
    let args = x.block[i]->args;
    let f = t.funcs[x.func];
    let g = y.func;
    let h = t.funcs[g];
    let k: Key = (g, x.masked);
    let frame = FrameV { name: x.func, params: f.params };
    assert(lookup(t, x, callee) == Some(TargetV::Func(g)));
    assert(target_recorded(c, end, TargetV::Func(g), p.held, p.masked)) by {
        assert(call_recorded(c, end, frame, callee, p.held, p.masked));
        if f.params.contains(callee) {
            assert(x.env.contains_key(callee));
            assert(x.env[callee] == TargetV::Func(g));
            assert(flows(c.t, frame.name, callee, x.env[callee]));
            assert(target_recorded(c, end, x.env[callee], p.held, p.masked));
        } else {
            assert(t.funcs.contains_key(callee));
            assert(g == callee);
        }
    }
    assert(can_enter(end, k, p.held));
    let q = entry_place(end.entry, k);
    assert(key_recorded(c, end, k));
    let call = CallV { callee, args };
    assert(stmt_calls(x.block[i])[0] == call);
    assert(calls_of(f).contains(call));
    let ki = calls_of(f).index_of(call);
    assert(calls_of(f)[ki] == call);
    let b = flow_bindings(t);
    assert forall|m: Name| h.params.contains(m) && #[trigger] y.env.contains_key(m) implies flows(
        t,
        g,
        m,
        y.env[m],
    ) by {
        let j = h.params.index_of(m);
        assert(h.params[j] == m);
        let v = y.env[m];
        assert(lookup(t, x, args[j]) == Some(v));
        assert(is_binding(t, x.func, ki, j, g, m));
        if f.params.contains(callee) {
            assert(b.contains((x.func, callee, TargetV::Func(g))));
        }
        if f.params.contains(args[j]) {
            assert(x.env.contains_key(args[j]));
            assert(b.contains((x.func, args[j], v)));
        }
        flow_respects_calls(t, x.func, ki, j, g, m, v);
    }
    let n = y.block.len() as int;
    assert forall|j: int| 0 <= j < calls_upto(y.block, n).len() implies calls_of(h).contains(
        #[trigger] calls_upto(y.block, n)[j],
    ) by {
        assert(calls_upto(y.block, n) == calls_of(h));
    }
    assert(q.coupled.dom() =~= Set::empty());
    assert forall|r: Res| #[trigger] y.held.contains(r) implies q.held.contains(
        class_of(t, r),
    ) by {
        assert(x.held.contains(r));
        assert(p.held.contains(class_of(t, r)));
    }
    assert(y.held == x.held && y.masked == x.masked);
    assert forall|r: Res| #[trigger] y.held.contains(r) && !y.masked && has_isr(
        t,
    ) implies has_edge(end.events, class_of(t, r), cpu()) by {
        assert(x.held.contains(r));
    }
    q
}

proof fn lemma_enter(
    c: ScopeV,
    end: StateV,
    x: ThreadV,
    p: PlaceV,
    y: ThreadV,
) -> (r: PlaceV)
    requires
        accounts(c, end, x, p),
        no_self(end.events),
        program_names_locks(c.t),
        forall|k: Key| #[trigger] end.entry.contains_key(k) ==> key_recorded(c, end, k),
        enters(c.t, x, y),
    ensures
        accounts(c, end, y, r),
{
    let i = choose|i: int| 0 <= i < x.block.len() && enters_by(c.t, x, #[trigger] x.block[i], y);
    lemma_at(c, end, x, p, i);
    if !(x.block[i] is Call) {
        lemma_body_calls(c, x, y, x.block[i]);
    }
    match x.block[i] {
        StmtV::With { lock, line, body } => lemma_enter_with(c, end, x, p, i, y),
        StmtV::Ordered { locks, line, body } => lemma_enter_ordered(c, end, x, p, i, y),
        StmtV::Couple { class, line, body } => {
            let coupled = if p.coupled.contains_key(class) {
                p.coupled
            } else {
                p.coupled.insert(class, None)
            };
            let q = PlaceV { coupled, depth: p.depth + 1, ..p };
            assert(q.coupled.dom() =~= p.coupled.dom().insert(class));
            assert forall|r: Res| #[trigger] y.held.contains(r) && q.coupled.contains_key(
                class_of(c.t, r),
            ) implies r is Lock && q.coupled[class_of(c.t, r)] is Some && c.t.lock_index[r->Lock_0]
                <= q.coupled[class_of(c.t, r)]->0 by {
                assert(x.held.contains(r));
                assert(p.held.contains(class_of(c.t, r)));
            }
            assert(held_accounted(c, end, y, q));
            q
        },
        StmtV::Mask { body } => {
            let q = PlaceV { masked: true, depth: p.depth + 1, ..p };
            assert(held_accounted(c, end, y, q));
            q
        },
        StmtV::Call { callee, args, line } => lemma_enter_call(c, end, x, p, i, y),
    }
}

/// The record accounts for every thread that the program can have.
proof fn lemma_reached(c: ScopeV, end: StateV, n: nat, x: ThreadV) -> (r: PlaceV)
    requires
        no_self(end.events),
        program_names_locks(c.t),
        forall|f: Name| #[trigger]
            c.t.funcs.contains_key(f) ==> can_enter(
                end,
                (f, c.t.funcs[f].is_isr),
                start_held(c.t, f),
            ),
        forall|k: Key| #[trigger] end.entry.contains_key(k) ==> key_recorded(c, end, k),
        reached_in(c.t, n, x),
    ensures
        accounts(c, end, x, r),
    decreases n,
{
    if n == 0 {
        let f = choose|f: Name| #[trigger] c.t.funcs.contains_key(f) && x == started(c.t, f);
        let k: Key = (f, c.t.funcs[f].is_isr);
        assert(can_enter(end, k, start_held(c.t, f)));
        assert(key_recorded(c, end, k));
        let q = entry_place(end.entry, k);
        assert(q.coupled.dom() =~= Set::empty());
        assert forall|r: Res| #[trigger] x.held.contains(r) implies q.held.contains(
            class_of(c.t, r),
        ) by {
            assert(start_held(c.t, f).contains(cpu()));
        }
        let m = x.block.len() as int;
        assert forall|j: int| 0 <= j < calls_upto(x.block, m).len() implies calls_of(
            c.t.funcs[x.func],
        ).contains(#[trigger] calls_upto(x.block, m)[j]) by {
            assert(calls_upto(x.block, m) == calls_of(c.t.funcs[f]));
        }
        q
    } else {
        let y = choose|y: ThreadV|
            reached_in(c.t, (n - 1) as nat, y) && #[trigger] enters(c.t, y, x);
        let p = lemma_reached(c, end, (n - 1) as nat, y);
        lemma_enter(c, end, y, p, x)
    }
}

/// What is held comes before what is waited for: their classes are ordered, or
/// they are locks of one class and declared in this order.
pub open spec fn comes_before(t: TablesV, events: Seq<EventV>, a: Res, b: Res) -> bool {
    if class_of(t, a) == class_of(t, b) {
        a is Lock && b is Lock && t.lock_index[a->Lock_0] < t.lock_index[b->Lock_0]
    } else {
        has_edge(events, class_of(t, a), class_of(t, b))
    }
}

proof fn lemma_wait_cpu(
    c: ScopeV,
    end: StateV,
    x: ThreadV,
    p: PlaceV,
    r: Res,
)
    requires
        accounts(c, end, x, p),
        no_self(end.events),
        preemptible(c.t, x),
        x.held.contains(r),
    ensures
        comes_before(c.t, end.events, r, Res::Cpu),
{
    assert(has_edge(end.events, class_of(c.t, r), cpu()));
}

proof fn lemma_wait_ordered(
    c: ScopeV,
    end: StateV,
    x: ThreadV,
    p: PlaceV,
    i: int,
    w: WaitV,
    r: Res,
)
    requires
        accounts(c, end, x, p),
        no_self(end.events),
        0 <= i < x.block.len(),
        x.block[i] is Ordered,
        waits_at(c.t, x, x.block[i], w),
        w.held.contains(r),
    ensures
        comes_before(c.t, end.events, r, w.wants),
{
    lemma_at(c, end, x, p, i);
    let locks = x.block[i]->locks;
    let classes = lock_classes(c.t, locks);
    let class = classes[0];
    let l = choose|l: Name|
        locks.contains(l) && w.held == x.held.union(#[trigger] taken_before(c.t, locks, l)) && (
        w.wants == Res::Lock(l) || (preemptible(c.t, x) && w.wants == Res::Cpu));
    let j = choose|j: int| 0 <= j < locks.len() && locks[j] == l;
    assert(classes[j] == class);
    assert(c.t.lock_class[l] == class);
    if x.held.contains(r) {
        if w.wants == Res::Cpu {
            lemma_wait_cpu(c, end, x, p, r);
        } else {
            assert(p.held.contains(class_of(c.t, r)));
            lemma_event_edge(end, p.held, class, class_of(c.t, r));
        }
    } else {
        let m = r->Lock_0;
        let k = choose|k: int| 0 <= k < locks.len() && locks[k] == m;
        assert(classes[k] == class);
        assert(class_of(c.t, r) == class);
        if w.wants == Res::Cpu {
            lemma_event_edge(end, Set::<Name>::empty().insert(class), cpu(), class);
        }
    }
}

proof fn lemma_wait_extern(
    c: ScopeV,
    end: StateV,
    x: ThreadV,
    p: PlaceV,
    acquires: Seq<Name>,
    w: WaitV,
    r: Res,
)
    requires
        accounts(c, end, x, p),
        no_self(end.events),
        extern_recorded(c, end, acquires, p.held, p.masked),
        waits_in_extern(c.t, x, acquires, w),
        w.held.contains(r),
    ensures
        comes_before(c.t, end.events, r, w.wants),
{
    let (locks, i) = choose|locks: Seq<Name>, i: int|
        #[trigger] of_classes(c.t, locks, acquires) && 0 <= i <= locks.len() && w.held
            == x.held.union(lock_set(#[trigger] locks.take(i))) && ((i < locks.len() && w.wants
            == Res::Lock(locks[i])) || (preemptible(c.t, x) && w.wants == Res::Cpu));
    if x.held.contains(r) {
        if w.wants == Res::Cpu {
            lemma_wait_cpu(c, end, x, p, r);
        } else {
            assert(p.held.contains(class_of(c.t, r)));
            assert(turn_recorded(c, end, acquires, i, p.held, p.masked));
            assert(c.t.lock_class[locks[i]] == acquires[i]);
            lemma_event_edge(
                end,
                p.held.union(acquires.take(i).to_set()),
                acquires[i],
                class_of(c.t, r),
            );
        }
    } else {
        let q = locks.take(i);
        let j = choose|j: int| 0 <= j < q.len() && q[j] == r->Lock_0;
        assert(locks[j] == r->Lock_0);
        assert(c.t.lock_class[locks[j]] == acquires[j]);
        if w.wants == Res::Cpu {
            assert(turn_recorded(c, end, acquires, j, p.held, p.masked));
            lemma_event_edge(end, Set::<Name>::empty().insert(acquires[j]), cpu(), acquires[j]);
        } else {
            assert(turn_recorded(c, end, acquires, i, p.held, p.masked));
            assert(c.t.lock_class[locks[i]] == acquires[i]);
            assert(acquires.take(i)[j] == acquires[j]);
            assert(acquires.take(i).contains(acquires[j]));
            lemma_event_edge(
                end,
                p.held.union(acquires.take(i).to_set()),
                acquires[i],
                acquires[j],
            );
        }
    }
}

/// Whatever a thread holds comes before whatever it waits for.
proof fn lemma_wait(
    c: ScopeV,
    end: StateV,
    x: ThreadV,
    p: PlaceV,
    i: int,
    w: WaitV,
    r: Res,
)
    requires
        accounts(c, end, x, p),
        no_self(end.events),
        0 <= i < x.block.len(),
        waits_at(c.t, x, x.block[i], w),
        w.held.contains(r),
    ensures
        comes_before(c.t, end.events, r, w.wants),
{
    lemma_at(c, end, x, p, i);
    match x.block[i] {
        StmtV::With { lock, line, body } => {
            lemma_with_climbs(c, end, x, p, lock, r);
        },
        StmtV::Ordered { locks, line, body } => {
            lemma_wait_ordered(c, end, x, p, i, w, r);
        },
        StmtV::Call { callee, args, line } => {
            let frame = FrameV { name: x.func, params: c.t.funcs[x.func].params };
            let e = lookup(c.t, x, callee)->0->Extern_0;
            assert(call_recorded(c, end, frame, callee, p.held, p.masked));
            assert(target_recorded(c, end, TargetV::Extern(e), p.held, p.masked)) by {
                if frame.params.contains(callee) {
                    assert(x.env.contains_key(callee));
                    assert(x.env[callee] == TargetV::Extern(e));
                    assert(flows(c.t, frame.name, callee, x.env[callee]));
                }
            }
            lemma_wait_extern(c, end, x, p, c.t.externs[e], w, r);
        },
        _ => {},
    }
}

/// In a program that is found safe, whatever a thread holds comes before
/// whatever it waits for.
pub proof fn waits_respect_the_order(
    items: Seq<ItemV>,
    file: Name,
    p: ProgramV,
    w: WaitV,
    r: Res,
)
    requires
        lowering(items, file) == Ok::<ProgramV, Seq<Name>>(p),
        p.incomplete is None,
        verdict(p.events) is DeadlockFree,
        classes(p.events).len() <= usize::MAX,
        program_names_locks(tables_of(items)),
        possible_wait(tables_of(items), w),
        w.held.contains(r),
    ensures
        comes_before(tables_of(items), p.events, r, w.wants),
{
    let t = tables_of(items);
    let c = ScopeV { t, file };
    let end = analyzed(c);
    lemma_tables_finite(items);
    lemma_analyzed(c);
    order_respects_every_edge(p.events);
    let order = verdict(p.events)->order;
    assert(no_self(end.events)) by {
        assert forall|k: Name| !#[trigger] has_edge(end.events, k, k) by {
            if has_edge(end.events, k, k) {
                lemma_edge_forward(p.events, order, k, k);
            }
        }
    }
    let x = choose|x: ThreadV| #[trigger]
        reachable(t, x) && ((preemptible(t, x) && w == (WaitV {
            held: x.held,
            wants: Res::Cpu,
        })) || exists|i: int|
            0 <= i < x.block.len() && waits_at(t, x, #[trigger] x.block[i], w));
    let n = choose|n: nat| reached_in(t, n, x);
    let q = lemma_reached(c, end, n, x);
    if preemptible(t, x) && w == (WaitV { held: x.held, wants: Res::Cpu }) {
        lemma_wait_cpu(c, end, x, q, r);
    } else {
        let i = choose|i: int| 0 <= i < x.block.len() && waits_at(t, x, #[trigger] x.block[i], w);
        lemma_wait(c, end, x, q, i, w, r);
    }
}

/// The number of a lock in the order of declaration.
spec fn index_of_res(t: TablesV, r: Res) -> int {
    match r {
        Res::Lock(l) => t.lock_index[l] as int,
        Res::Cpu => 0,
    }
}

/// `a` ranks below `b`: by their classes in the lock order, then by their
/// declaration.
spec fn ranks_below(t: TablesV, order: Seq<Name>, a: Res, b: Res) -> bool {
    let i = place(order, class_of(t, a));
    let j = place(order, class_of(t, b));
    i < j || (i == j && index_of_res(t, a) < index_of_res(t, b))
}

proof fn lemma_ring_ranks(
    items: Seq<ItemV>,
    file: Name,
    p: ProgramV,
    ring: Seq<WaitV>,
    order: Seq<Name>,
    k: int,
)
    requires
        lowering(items, file) == Ok::<ProgramV, Seq<Name>>(p),
        p.incomplete is None,
        verdict(p.events) == (OutcomeV::DeadlockFree { order }),
        classes(p.events).len() <= usize::MAX,
        program_names_locks(tables_of(items)),
        forall|i: int|
            0 <= i < ring.len() ==> possible_wait(tables_of(items), #[trigger] ring[i]),
        circular(ring),
        0 < k < ring.len(),
    ensures
        ranks_below(tables_of(items), order, ring[0].wants, ring[k].wants),
    decreases k,
{
    let t = tables_of(items);
    let a = ring[k - 1].wants;
    let b = ring[k].wants;
    assert(ring[k - 1 + 1].held.contains(a));
    assert(possible_wait(t, ring[k]));
    waits_respect_the_order(items, file, p, ring[k], a);
    order_respects_every_edge(p.events);
    if class_of(t, a) != class_of(t, b) {
        lemma_edge_forward(p.events, order, class_of(t, a), class_of(t, b));
    }
    if k > 1 {
        lemma_ring_ranks(items, file, p, ring, order, k - 1);
    }
}

/// A program that is found safe, by an analysis that was complete, can never
/// reach a circular wait: no lock-ordering deadlock is possible.
pub proof fn safe_programs_never_deadlock(
    items: Seq<ItemV>,
    file: Name,
    p: ProgramV,
    ring: Seq<WaitV>,
)
    requires
        lowering(items, file) == Ok::<ProgramV, Seq<Name>>(p),
        p.incomplete is None,
        verdict(p.events) is DeadlockFree,
        classes(p.events).len() <= usize::MAX,
        program_names_locks(tables_of(items)),
        forall|i: int|
            0 <= i < ring.len() ==> possible_wait(tables_of(items), #[trigger] ring[i]),
    ensures
        !circular(ring),
{
    if circular(ring) {
        let t = tables_of(items);
        let order = verdict(p.events)->order;
        let last = ring.len() - 1;
        let a = ring[last].wants;
        let b = ring[0].wants;
        assert(ring[0].held.contains(a));
        assert(possible_wait(t, ring[0]));
        waits_respect_the_order(items, file, p, ring[0], a);
        order_respects_every_edge(p.events);
        if class_of(t, a) != class_of(t, b) {
            lemma_edge_forward(p.events, order, class_of(t, a), class_of(t, b));
        }
        assert(ranks_below(t, order, a, b));
        if last > 0 {
            lemma_ring_ranks(items, file, p, ring, order, last);
        }
    }
}

}
