//! The analysis is exact at the edge level.
//!
//! It enters every function with the union of all held-sets that reach it. An
//! enumeration of the exact held-sets, which may be exponentially many, would
//! find the same ordering edges: every edge of the analysis comes from one
//! exact held-set, and a complete analysis has every edge that one gives.

use vstd::prelude::*;

use crate::ast::{ItemV, StmtV};
use crate::flow::{flowing_externs, flowing_funcs, flows, TargetV};
use crate::frontend::{
    all_declared, all_same, analyzed, apply_all, apply_extern, call_stmt, check_args, check_locks,
    counted_held, cpu, emit, emit_preemption, entry_of, entry_place, extern_acquires, fail_arity,
    grow_all, grow_entry, has_isr, inside_ordered, inside_with, last_index, lock_classes, lowering,
    no_state, run_block, run_stmt, run_upto, seed_all, seeded, turn, turns, FrameV, Key, PlaceV,
    ScopeV, StateV, MAX_ANALYSES, MAX_DEPTH,
};
use crate::model::{has_edge, EventV, ProgramV};
use crate::ordset::{lemma_sorted_set, sorted};
use crate::soundness::{
    block_recorded, call_recorded, can_enter, finite_scope, finite_state, has_preemption,
    key_recorded, lemma_analyzed, lemma_event_edge, lemma_sorted_targets, start_held, stmt_recorded,
    target_recorded, turn_recorded,
};
use crate::tables::{lemma_tables_finite, tables_of, TablesV};
use crate::text::Name;

verus! {

/// Inside a block that starts at the place `p`, the statement `s` stands at the
/// place `q`.
pub open spec fn occurs(
    t: TablesV,
    block: Seq<StmtV>,
    n: int,
    p: PlaceV,
    s: StmtV,
    q: PlaceV,
) -> bool
    decreases block, n,
{
    0 < n <= block.len() && (occurs(t, block, n - 1, p, s, q) || occurs_in(
        t,
        block[n - 1],
        p,
        s,
        q,
    ))
}

/// The statement `s` at the place `q` is the statement `x` at the place `p`, or
/// stands inside it.
pub open spec fn occurs_in(t: TablesV, x: StmtV, p: PlaceV, s: StmtV, q: PlaceV) -> bool
    decreases x,
{
    (s == x && q == p) || match x {
        StmtV::With { lock, line, body } => t.lock_class.contains_key(lock) && occurs(
            t,
            body,
            body.len() as int,
            inside_with(p, t.lock_class[lock], t.lock_index[lock]),
            s,
            q,
        ),
        StmtV::Ordered { locks, line, body } => {
            let classes = lock_classes(t, locks);
            &&& locks.len() > 0
            &&& all_declared(t, locks)
            &&& all_same(classes)
            &&& occurs(
                t,
                body,
                body.len() as int,
                inside_ordered(t, p, locks),
                s,
                q,
            )
        },
        StmtV::Couple { class, line, body } => occurs(
            t,
            body,
            body.len() as int,
            PlaceV {
                coupled: if p.coupled.contains_key(class) {
                    p.coupled
                } else {
                    p.coupled.insert(class, None)
                },
                depth: p.depth + 1,
                ..p
            },
            s,
            q,
        ),
        StmtV::Mask { body } => occurs(
            t,
            body,
            body.len() as int,
            PlaceV { masked: true, depth: p.depth + 1, ..p },
            s,
            q,
        ),
        StmtV::Call { callee, args, line } => false,
    }
}

/// The start of a function, with nothing held.
pub open spec fn bare_place(masked: bool) -> PlaceV {
    PlaceV { held: Set::empty(), coupled: Map::empty(), masked, depth: 0 }
}

/// In the function `k.0`, entered with nothing held, the statement `s` stands at
/// the place `q`.
pub open spec fn stands(t: TablesV, k: Key, s: StmtV, q: PlaceV) -> bool {
    &&& t.funcs.contains_key(k.0)
    &&& occurs(
        t,
        t.funcs[k.0].body,
        t.funcs[k.0].body.len() as int,
        bare_place(k.1),
        s,
        q,
    )
}

/// The place `q` with `held` held besides.
pub open spec fn widen(q: PlaceV, held: Set<Name>) -> PlaceV {
    PlaceV { held: held.union(q.held), ..q }
}

/// A call of `callee` in the function `f` may run `x`.
pub open spec fn may_run(t: TablesV, f: Name, callee: Name, x: TargetV) -> bool {
    if t.funcs[f].params.contains(callee) {
        flows(t, f, callee, x)
    } else if t.funcs.contains_key(callee) {
        x == TargetV::Func(callee)
    } else if t.externs.contains_key(callee) {
        x == TargetV::Extern(callee)
    } else {
        false
    }
}

/// With exactly `h0` held on entry, the function `k0.0` may enter `k.0` with
/// exactly `h` held.
pub open spec fn passes(t: TablesV, k0: Key, h0: Set<Name>, k: Key, h: Set<Name>) -> bool {
    exists|s: StmtV, q: PlaceV|
        #[trigger] stands(t, k0, s, q) && s is Call && may_run(
            t,
            k0.0,
            s->callee,
            TargetV::Func(k.0),
        ) && k.1 == q.masked && h == h0.union(q.held)
}

/// Within `n` calls the function can be entered with exactly `h` held.
pub open spec fn context_in(t: TablesV, n: nat, k: Key, h: Set<Name>) -> bool
    decreases n,
{
    if n == 0 {
        t.funcs.contains_key(k.0) && k.1 == t.funcs[k.0].is_isr && h == start_held(t, k.0)
    } else {
        exists|k0: Key, h0: Set<Name>|
            context_in(t, (n - 1) as nat, k0, h0) && #[trigger] passes(t, k0, h0, k, h)
    }
}

/// The function can be entered with exactly `h` held.
pub open spec fn context(t: TablesV, k: Key, h: Set<Name>) -> bool {
    exists|n: nat| context_in(t, n, k, h)
}

/// Where `class` is taken, an interrupt handler may take the processor.
pub open spec fn preempts(t: TablesV, masked: bool, class: Name, before: Name, after: Name) -> bool {
    has_isr(t) && !masked && before == class && after == cpu()
}

/// An extern that acquires `classes` takes `after` while `before` is held.
pub open spec fn extern_orders(
    t: TablesV,
    classes: Seq<Name>,
    held: Set<Name>,
    masked: bool,
    before: Name,
    after: Name,
) -> bool {
    exists|i: int|
        0 <= i < classes.len() && ((after == #[trigger] classes[i] && held.union(
            classes.take(i).to_set(),
        ).contains(before)) || preempts(t, masked, classes[i], before, after))
}

/// The statement `s` at the place `q` takes `after` while `before` counts as
/// held.
pub open spec fn orders(
    t: TablesV,
    f: Name,
    s: StmtV,
    q: PlaceV,
    before: Name,
    after: Name,
) -> bool {
    match s {
        StmtV::With { lock, line, body } => {
            let class = t.lock_class[lock];
            &&& t.lock_class.contains_key(lock)
            &&& (after == class && counted_held(q, class, t.lock_index[lock]).contains(before))
                || preempts(t, q.masked, class, before, after)
        },
        StmtV::Ordered { locks, line, body } => {
            let classes = lock_classes(t, locks);
            &&& locks.len() > 0
            &&& all_declared(t, locks)
            &&& all_same(classes)
            &&& (after == classes[0] && q.held.contains(before)) || preempts(
                t,
                q.masked,
                classes[0],
                before,
                after,
            )
        },
        StmtV::Call { callee, args, line } => exists|e: Name| #[trigger]
            may_run(t, f, callee, TargetV::Extern(e)) && t.externs.contains_key(e)
                && extern_orders(t, t.externs[e], q.held, q.masked, before, after),
        _ => false,
    }
}

/// The function `k.0`, entered with exactly `h` held, takes `after` while
/// `before` counts as held.
pub open spec fn gives_edge(t: TablesV, k: Key, h: Set<Name>, before: Name, after: Name) -> bool {
    exists|s: StmtV, q: PlaceV|
        #[trigger] stands(t, k, s, q) && orders(t, k.0, s, widen(q, h), before, after)
}

/// Some exact held-set gives the edge.
pub open spec fn real_edge(t: TablesV, before: Name, after: Name) -> bool {
    exists|k: Key, h: Set<Name>| #[trigger]
        context(t, k, h) && gives_edge(t, k, h, before, after)
}

proof fn lemma_occurs_at(t: TablesV, block: Seq<StmtV>, n: int, p: PlaceV, i: int, s: StmtV, q: PlaceV)
    requires
        0 <= i < n <= block.len(),
        occurs_in(t, block[i], p, s, q),
    ensures
        occurs(t, block, n, p, s, q),
    decreases n,
{
    if i < n - 1 {
        lemma_occurs_at(t, block, n - 1, p, i, s, q);
    }
}

proof fn lemma_occurs_trans(
    t: TablesV,
    block: Seq<StmtV>,
    n: int,
    p: PlaceV,
    s: StmtV,
    q: PlaceV,
    s2: StmtV,
    q2: PlaceV,
)
    requires
        occurs(t, block, n, p, s, q),
        occurs_in(t, s, q, s2, q2),
    ensures
        occurs(t, block, n, p, s2, q2),
    decreases block, n,
{
    if occurs(t, block, n - 1, p, s, q) {
        lemma_occurs_trans(t, block, n - 1, p, s, q, s2, q2);
    } else {
        lemma_occurs_in_trans(t, block[n - 1], p, s, q, s2, q2);
    }
}

proof fn lemma_occurs_in_trans(
    t: TablesV,
    x: StmtV,
    p: PlaceV,
    s: StmtV,
    q: PlaceV,
    s2: StmtV,
    q2: PlaceV,
)
    requires
        occurs_in(t, x, p, s, q),
        occurs_in(t, s, q, s2, q2),
    ensures
        occurs_in(t, x, p, s2, q2),
    decreases x,
{
    if !(s == x && q == p) {
        match x {
            StmtV::With { lock, line, body } => {
                lemma_occurs_trans(
                    t,
                    body,
                    body.len() as int,
                    inside_with(p, t.lock_class[lock], t.lock_index[lock]),
                    s,
                    q,
                    s2,
                    q2,
                );
            },
            StmtV::Ordered { locks, line, body } => {
                let classes = lock_classes(t, locks);
                lemma_occurs_trans(
                    t,
                    body,
                    body.len() as int,
                    inside_ordered(t, p, locks),
                    s,
                    q,
                    s2,
                    q2,
                );
            },
            StmtV::Couple { class, line, body } => {
                let coupled = if p.coupled.contains_key(class) {
                    p.coupled
                } else {
                    p.coupled.insert(class, None)
                };
                lemma_occurs_trans(
                    t,
                    body,
                    body.len() as int,
                    PlaceV { coupled, depth: p.depth + 1, ..p },
                    s,
                    q,
                    s2,
                    q2,
                );
            },
            StmtV::Mask { body } => {
                lemma_occurs_trans(
                    t,
                    body,
                    body.len() as int,
                    PlaceV { masked: true, depth: p.depth + 1, ..p },
                    s,
                    q,
                    s2,
                    q2,
                );
            },
            StmtV::Call { callee, args, line } => {},
        }
    }
}

/// The function has been reached, and each class it can be entered with comes
/// from an exact held-set.
spec fn entry_real(t: TablesV, k: Key, held: Set<Name>) -> bool {
    &&& exists|h: Set<Name>| #[trigger] context(t, k, h)
    &&& forall|x: Name| #[trigger]
        held.contains(x) ==> exists|h: Set<Name>| #[trigger] context(t, k, h) && h.contains(x)
}

/// Every edge of the events is real.
spec fn events_real(t: TablesV, events: Seq<EventV>) -> bool {
    forall|i: int, h: Name|
        0 <= i < events.len() && #[trigger] events[i].held.contains(h) ==> real_edge(
            t,
            h,
            events[i].acquires,
        )
}

spec fn state_real(c: ScopeV, st: StateV) -> bool {
    &&& finite_state(st)
    &&& events_real(c.t, st.events)
    &&& forall|k: Key| #[trigger] st.entry.contains_key(k) ==> entry_real(c.t, k, st.entry[k])
}

/// What is held at a place of a function comes from some exact held-set.
proof fn lemma_place_real(t: TablesV, k: Key, held: Set<Name>, q: PlaceV, x: Name) -> (h: Set<Name>)
    requires
        entry_real(t, k, held),
        widen(q, held).held.contains(x),
    ensures
        context(t, k, h),
        widen(q, h).held.contains(x),
{
    if held.contains(x) {
        choose|h: Set<Name>| #[trigger] context(t, k, h) && h.contains(x)
    } else {
        choose|h: Set<Name>| #[trigger] context(t, k, h)
    }
}

proof fn lemma_emit_real(
    c: ScopeV,
    st: StateV,
    function: Name,
    line: nat,
    held: Set<Name>,
    class: Name,
)
    requires
        state_real(c, st),
        held.finite(),
        forall|x: Name| #[trigger] held.contains(x) ==> real_edge(c.t, x, class),
    ensures
        state_real(c, emit(c, st, function, line, held, class)),
{
    let st2 = emit(c, st, function, line, held, class);
    lemma_sorted_set(held);
    assert forall|i: int, h: Name|
        0 <= i < st2.events.len() && #[trigger] st2.events[i].held.contains(h) implies real_edge(
        c.t,
        h,
        st2.events[i].acquires,
    ) by {
        if i < st.events.len() {
            assert(st.events[i].held.contains(h));
        } else {
            assert(sorted(held).contains(h));
            assert(held.contains(h));
        }
    }
}

proof fn lemma_emit_preemption_real(
    c: ScopeV,
    st: StateV,
    function: Name,
    line: nat,
    class: Name,
    masked: bool,
)
    requires
        state_real(c, st),
        has_isr(c.t) && !masked ==> real_edge(c.t, class, cpu()),
    ensures
        state_real(c, emit_preemption(c, st, function, line, class, masked)),
{
    if has_isr(c.t) && !masked {
        lemma_emit_real(c, st, function, line, Set::<Name>::empty().insert(class), cpu());
    }
}

proof fn lemma_grow_real(c: ScopeV, st: StateV, k: Key, held: Set<Name>)
    requires
        state_real(c, st),
        held.finite(),
        entry_real(c.t, k, held),
    ensures
        state_real(c, grow_entry(st, k, held)),
{
    let st2 = grow_entry(st, k, held);
    assert(st2.entry == st.entry.insert(k, entry_of(st.entry, k).union(held)));
    assert forall|j: Key| #[trigger] st2.entry.contains_key(j) implies entry_real(
        c.t,
        j,
        st2.entry[j],
    ) && st2.entry[j].finite() by {
        if j != k {
            assert(st.entry.contains_key(j));
        } else {
            if st.entry.contains_key(k) {
                assert(st.entry[k].finite());
                assert(entry_real(c.t, k, st.entry[k]));
            }
            assert forall|x: Name| #[trigger] st2.entry[j].contains(x) implies exists|h: Set<Name>|
                #[trigger] context(c.t, k, h) && h.contains(x) by {
                if !held.contains(x) {
                    assert(st.entry.contains_key(k) && st.entry[k].contains(x));
                }
            }
        }
    }
}

proof fn lemma_grow_all_real(c: ScopeV, st: StateV, fs: Seq<Name>, masked: bool, held: Set<Name>)
    requires
        state_real(c, st),
        held.finite(),
        forall|i: int| 0 <= i < fs.len() ==> entry_real(c.t, (#[trigger] fs[i], masked), held),
    ensures
        state_real(c, grow_all(st, fs, masked, held)),
    decreases fs.len(),
{
    if fs.len() > 0 {
        let r = fs.drop_last();
        assert forall|i: int| 0 <= i < r.len() implies entry_real(
            c.t,
            (#[trigger] r[i], masked),
            held,
        ) by {
            assert(r[i] == fs[i]);
        }
        lemma_grow_all_real(c, st, r, masked, held);
        assert(entry_real(c.t, (fs[fs.len() - 1], masked), held));
        lemma_grow_real(c, grow_all(st, r, masked, held), (fs.last(), masked), held);
    }
}

/// A call hands real held-sets on.
proof fn lemma_passes_real(
    t: TablesV,
    k: Key,
    held: Set<Name>,
    s: StmtV,
    q: PlaceV,
    g: Name,
)
    requires
        entry_real(t, k, held),
        stands(t, k, s, q),
        s is Call,
        may_run(t, k.0, s->callee, TargetV::Func(g)),
    ensures
        entry_real(t, (g, q.masked), widen(q, held).held),
{
    let k2: Key = (g, q.masked);
    assert forall|h: Set<Name>| #[trigger] context(t, k, h) implies context(
        t,
        k2,
        h.union(q.held),
    ) by {
        let n = choose|n: nat| context_in(t, n, k, h);
        assert(passes(t, k, h, k2, h.union(q.held)));
        assert(context_in(t, n + 1, k2, h.union(q.held)));
    }
    let h0 = choose|h: Set<Name>| #[trigger] context(t, k, h);
    assert(context(t, k2, h0.union(q.held)));
    assert forall|x: Name| #[trigger] widen(q, held).held.contains(x) implies exists|h: Set<Name>|
        #[trigger] context(t, k2, h) && h.contains(x) by {
        let h = lemma_place_real(t, k, held, q, x);
        assert(context(t, k2, h.union(q.held)));
    }
}

proof fn lemma_extern_real(
    c: ScopeV,
    st: StateV,
    k: Key,
    entered: Set<Name>,
    s: StmtV,
    q: PlaceV,
    e: Name,
    line: nat,
    n: int,
)
    requires
        state_real(c, st),
        entry_real(c.t, k, entered),
        entered.finite(),
        q.held.finite(),
        stands(c.t, k, s, q),
        s is Call,
        may_run(c.t, k.0, s->callee, TargetV::Extern(e)),
        c.t.externs.contains_key(e),
        0 <= n <= c.t.externs[e].len(),
    ensures
        state_real(
            c,
            extern_acquires(
                c,
                st,
                e,
                line,
                widen(q, entered).held,
                q.masked,
                c.t.externs[e].take(n),
            ),
        ),
    decreases n,
{
    let acq = c.t.externs[e];
    let held = widen(q, entered).held;
    if n > 0 {
        lemma_extern_real(c, st, k, entered, s, q, e, line, n - 1);
        let r = acq.take(n - 1);
        assert(acq.take(n).drop_last() =~= r);
        let class = acq[n - 1];
        assert(acq.take(n).last() == class);
        let st1 = extern_acquires(c, st, e, line, held, q.masked, r);
        let all = held.union(r.to_set());
        assert forall|x: Name| #[trigger] all.contains(x) implies real_edge(c.t, x, class) by {
            let h = if held.contains(x) {
                lemma_place_real(c.t, k, entered, q, x)
            } else {
                choose|h: Set<Name>| #[trigger] context(c.t, k, h)
            };
            assert(extern_orders(c.t, acq, widen(q, h).held, q.masked, x, class)) by {
                assert(class == acq[n - 1]);
            }
            assert(orders(c.t, k.0, s, widen(q, h), x, class));
            assert(gives_edge(c.t, k, h, x, class));
        }
        lemma_emit_real(c, st1, e, line, all, class);
        let st2 = emit(c, st1, e, line, all, class);
        if has_isr(c.t) && !q.masked {
            let h = choose|h: Set<Name>| #[trigger] context(c.t, k, h);
            assert(extern_orders(c.t, acq, widen(q, h).held, q.masked, class, cpu())) by {
                assert(preempts(c.t, q.masked, acq[n - 1], class, cpu()));
            }
            assert(orders(c.t, k.0, s, widen(q, h), class, cpu()));
            assert(gives_edge(c.t, k, h, class, cpu()));
        }
        lemma_emit_preemption_real(c, st2, e, line, class, q.masked);
    }
}

proof fn lemma_apply_extern_real(
    c: ScopeV,
    st: StateV,
    k: Key,
    entered: Set<Name>,
    s: StmtV,
    q: PlaceV,
    e: Name,
)
    requires
        state_real(c, st),
        entry_real(c.t, k, entered),
        entered.finite(),
        q.held.finite(),
        stands(c.t, k, s, q),
        s is Call,
        may_run(c.t, k.0, s->callee, TargetV::Extern(e)),
    ensures
        state_real(
            c,
            apply_extern(
                c,
                st,
                e,
                s->args,
                s->Call_line,
                widen(q, entered).held,
                q.masked,
            ),
        ),
{
    if s->args.len() == 0 && c.t.externs.contains_key(e) {
        let acq = c.t.externs[e];
        lemma_extern_real(c, st, k, entered, s, q, e, s->Call_line, acq.len() as int);
        assert(acq.take(acq.len() as int) =~= acq);
    }
}

proof fn lemma_apply_all_real(
    c: ScopeV,
    st: StateV,
    k: Key,
    entered: Set<Name>,
    s: StmtV,
    q: PlaceV,
    es: Seq<Name>,
)
    requires
        state_real(c, st),
        entry_real(c.t, k, entered),
        entered.finite(),
        q.held.finite(),
        stands(c.t, k, s, q),
        s is Call,
        forall|i: int|
            0 <= i < es.len() ==> may_run(
                c.t,
                k.0,
                s->callee,
                TargetV::Extern(#[trigger] es[i]),
            ),
    ensures
        state_real(
            c,
            apply_all(
                c,
                st,
                es,
                s->args,
                s->Call_line,
                widen(q, entered).held,
                q.masked,
            ),
        ),
    decreases es.len(),
{
    if es.len() > 0 {
        let r = es.drop_last();
        assert forall|i: int| 0 <= i < r.len() implies may_run(
            c.t,
            k.0,
            s->callee,
            TargetV::Extern(#[trigger] r[i]),
        ) by {
            assert(r[i] == es[i]);
        }
        lemma_apply_all_real(c, st, k, entered, s, q, r);
        let st1 = apply_all(
            c,
            st,
            r,
            s->args,
            s->Call_line,
            widen(q, entered).held,
            q.masked,
        );
        assert(es[es.len() - 1] == es.last());
        lemma_apply_extern_real(c, st1, k, entered, s, q, es.last());
    }
}

proof fn lemma_check_args_real(
    c: ScopeV,
    st: StateV,
    params: Seq<Name>,
    args: Seq<Name>,
    line: nat,
)
    requires
        state_real(c, st),
    ensures
        state_real(c, check_args(c, st, params, args, line)),
    decreases args.len(),
{
    if args.len() > 0 {
        lemma_check_args_real(c, st, params, args.drop_last(), line);
    }
}

proof fn lemma_check_locks_real(c: ScopeV, st: StateV, locks: Seq<Name>, line: nat)
    requires
        state_real(c, st),
    ensures
        state_real(c, check_locks(c, st, locks, line)),
    decreases locks.len(),
{
    if locks.len() > 0 {
        lemma_check_locks_real(c, st, locks.drop_last(), line);
    }
}

proof fn lemma_call_real(
    c: ScopeV,
    st: StateV,
    k: Key,
    entered: Set<Name>,
    s: StmtV,
    q: PlaceV,
)
    requires
        finite_scope(c),
        state_real(c, st),
        entry_real(c.t, k, entered),
        entered.finite(),
        q.held.finite(),
        stands(c.t, k, s, q),
        s is Call,
    ensures
        state_real(
            c,
            call_stmt(
                c,
                st,
                FrameV { name: k.0, params: c.t.funcs[k.0].params },
                s->callee,
                s->args,
                s->Call_line,
                widen(q, entered).held,
                q.masked,
            ),
        ),
{
    let frame = FrameV { name: k.0, params: c.t.funcs[k.0].params };
    let callee = s->callee;
    let args = s->args;
    let line = s->Call_line;
    let held = widen(q, entered).held;
    let st1 = check_args(c, st, frame.params, args, line);
    lemma_check_args_real(c, st, frame.params, args, line);
    if frame.params.contains(callee) {
        let fs = sorted(flowing_funcs(c.t, frame.name, callee));
        let es = sorted(flowing_externs(c.t, frame.name, callee));
        let st2 = if fs.len() == 1 && es.len() == 0 && c.t.funcs.contains_key(fs[0])
            && c.t.funcs[fs[0]].params.len() != args.len() {
            fail_arity(c, st1, line, fs[0], c.t.funcs[fs[0]].params.len(), args.len())
        } else {
            st1
        };
        assert(state_real(c, st2));
        assert forall|i: int| 0 <= i < fs.len() implies entry_real(
            c.t,
            (#[trigger] fs[i], q.masked),
            held,
        ) by {
            lemma_sorted_targets(c, k.0, callee, TargetV::Func(fs[i]));
            assert(fs.contains(fs[i]));
            lemma_passes_real(c.t, k, entered, s, q, fs[i]);
        }
        lemma_grow_all_real(c, st2, fs, q.masked, held);
        assert forall|i: int| 0 <= i < es.len() implies may_run(
            c.t,
            k.0,
            callee,
            TargetV::Extern(#[trigger] es[i]),
        ) by {
            lemma_sorted_targets(c, k.0, callee, TargetV::Extern(es[i]));
            assert(es.contains(es[i]));
        }
        lemma_apply_all_real(c, grow_all(st2, fs, q.masked, held), k, entered, s, q, es);
    } else if c.t.funcs.contains_key(callee) {
        lemma_passes_real(c.t, k, entered, s, q, callee);
        lemma_grow_real(c, st1, (callee, q.masked), held);
    } else if c.t.externs.contains_key(callee) {
        lemma_apply_extern_real(c, st, k, entered, s, q, callee);
    }
}

/// An acquisition at a place of a function orders only what some exact held-set
/// orders.
proof fn lemma_acquire_real(
    c: ScopeV,
    st: StateV,
    k: Key,
    entered: Set<Name>,
    s: StmtV,
    q: PlaceV,
    counted: Set<Name>,
    class: Name,
    line: nat,
) -> (st2: StateV)
    requires
        state_real(c, st),
        entry_real(c.t, k, entered),
        stands(c.t, k, s, q),
        counted.finite(),
        forall|x: Name, h: Set<Name>|
            counted.contains(x) && #[trigger] widen(q, h).held.contains(x) ==> orders(
                c.t,
                k.0,
                s,
                widen(q, h),
                x,
                class,
            ),
        counted.subset_of(widen(q, entered).held),
        has_isr(c.t) && !q.masked ==> forall|h: Set<Name>|
            orders(c.t, k.0, s, #[trigger] widen(q, h), class, cpu()),
    ensures
        st2 == emit_preemption(
            c,
            emit(c, st, k.0, line, counted, class),
            k.0,
            line,
            class,
            q.masked,
        ),
        state_real(c, st2),
{
    assert forall|x: Name| #[trigger] counted.contains(x) implies real_edge(c.t, x, class) by {
        let h = lemma_place_real(c.t, k, entered, q, x);
        assert(widen(q, h).held.contains(x));
        assert(gives_edge(c.t, k, h, x, class));
    }
    lemma_emit_real(c, st, k.0, line, counted, class);
    let st1 = emit(c, st, k.0, line, counted, class);
    if has_isr(c.t) && !q.masked {
        let h = choose|h: Set<Name>| #[trigger] context(c.t, k, h);
        assert(orders(c.t, k.0, s, widen(q, h), class, cpu()));
        assert(gives_edge(c.t, k, h, class, cpu()));
    }
    lemma_emit_preemption_real(c, st1, k.0, line, class, q.masked);
    emit_preemption(c, st1, k.0, line, class, q.masked)
}

proof fn lemma_stmt_real(
    c: ScopeV,
    st: StateV,
    k: Key,
    entered: Set<Name>,
    s: StmtV,
    q: PlaceV,
)
    requires
        finite_scope(c),
        state_real(c, st),
        entry_real(c.t, k, entered),
        entered.finite(),
        q.held.finite(),
        stands(c.t, k, s, q),
    ensures
        state_real(
            c,
            run_stmt(
                c,
                st,
                FrameV { name: k.0, params: c.t.funcs[k.0].params },
                s,
                widen(q, entered),
            ),
        ),
    decreases s,
{
    let t = c.t;
    let p = widen(q, entered);
    match s {
        StmtV::With { lock, line, body } => {
            if t.lock_class.contains_key(lock) {
                let class = t.lock_class[lock];
                let idx = t.lock_index[lock];
                let counted = counted_held(p, class, idx);
                let st2 = lemma_acquire_real(c, st, k, entered, s, q, counted, class, line);
                let q2 = inside_with(q, class, idx);
                assert(inside_with(p, class, idx).held =~= widen(q2, entered).held);
                assert(inside_with(p, class, idx) == widen(q2, entered));
                lemma_body_real(c, st2, k, entered, s, q, body, q2);
            }
        },
        StmtV::Ordered { locks, line, body } => {
            let classes = lock_classes(t, locks);
            let st1 = check_locks(c, st, locks, line);
            lemma_check_locks_real(c, st, locks, line);
            if all_declared(t, locks) && locks.len() > 0 && all_same(classes) {
                let class = classes[0];
                let st2 = lemma_acquire_real(c, st1, k, entered, s, q, p.held, class, line);
                let q2 = inside_ordered(t, q, locks);
                let p2 = inside_ordered(t, p, locks);
                assert(p2.held =~= widen(q2, entered).held);
                assert(p2 == widen(q2, entered));
                lemma_body_real(c, st2, k, entered, s, q, body, q2);
            }
        },
        StmtV::Couple { class, line, body } => {
            let coupled = if q.coupled.contains_key(class) {
                q.coupled
            } else {
                q.coupled.insert(class, None)
            };
            let q2 = PlaceV { coupled, depth: q.depth + 1, ..q };
            assert(PlaceV { coupled, depth: p.depth + 1, ..p } == widen(q2, entered));
            lemma_body_real(c, st, k, entered, s, q, body, q2);
        },
        StmtV::Mask { body } => {
            let q2 = PlaceV { masked: true, depth: q.depth + 1, ..q };
            assert(PlaceV { masked: true, depth: p.depth + 1, ..p } == widen(q2, entered));
            lemma_body_real(c, st, k, entered, s, q, body, q2);
        },
        StmtV::Call { callee, args, line } => {
            lemma_call_real(c, st, k, entered, s, q);
        },
    }
}

proof fn lemma_body_real(
    c: ScopeV,
    st: StateV,
    k: Key,
    entered: Set<Name>,
    s: StmtV,
    q: PlaceV,
    body: Seq<StmtV>,
    q2: PlaceV,
)
    requires
        finite_scope(c),
        state_real(c, st),
        entry_real(c.t, k, entered),
        entered.finite(),
        q2.held.finite(),
        stands(c.t, k, s, q),
        forall|s2: StmtV, q3: PlaceV| #[trigger]
            occurs(c.t, body, body.len() as int, q2, s2, q3) ==> occurs_in(c.t, s, q, s2, q3),
    ensures
        state_real(
            c,
            run_block(
                c,
                st,
                FrameV { name: k.0, params: c.t.funcs[k.0].params },
                body,
                widen(q2, entered),
            ),
        ),
    decreases body, body.len() + 2,
{
    let f = c.t.funcs[k.0];
    assert forall|s2: StmtV, q3: PlaceV| #[trigger]
        occurs(c.t, body, body.len() as int, q2, s2, q3) implies stands(c.t, k, s2, q3) by {
        lemma_occurs_trans(
            c.t,
            f.body,
            f.body.len() as int,
            bare_place(k.1),
            s,
            q,
            s2,
            q3,
        );
    }
    lemma_block_real(c, st, k, entered, body, q2);
}

proof fn lemma_block_real(
    c: ScopeV,
    st: StateV,
    k: Key,
    entered: Set<Name>,
    block: Seq<StmtV>,
    q: PlaceV,
)
    requires
        finite_scope(c),
        state_real(c, st),
        entry_real(c.t, k, entered),
        entered.finite(),
        q.held.finite(),
        forall|s2: StmtV, q3: PlaceV| #[trigger]
            occurs(c.t, block, block.len() as int, q, s2, q3) ==> stands(c.t, k, s2, q3),
    ensures
        state_real(
            c,
            run_block(
                c,
                st,
                FrameV { name: k.0, params: c.t.funcs[k.0].params },
                block,
                widen(q, entered),
            ),
        ),
    decreases block, block.len() + 1,
{
    if !st.aborted && q.depth <= MAX_DEPTH {
        lemma_upto_real(c, st, k, entered, block, block.len() as int, q);
    }
}

proof fn lemma_upto_real(
    c: ScopeV,
    st: StateV,
    k: Key,
    entered: Set<Name>,
    block: Seq<StmtV>,
    n: int,
    q: PlaceV,
)
    requires
        finite_scope(c),
        state_real(c, st),
        entry_real(c.t, k, entered),
        entered.finite(),
        q.held.finite(),
        0 <= n <= block.len(),
        forall|s2: StmtV, q3: PlaceV| #[trigger]
            occurs(c.t, block, block.len() as int, q, s2, q3) ==> stands(c.t, k, s2, q3),
    ensures
        state_real(
            c,
            run_upto(
                c,
                st,
                FrameV { name: k.0, params: c.t.funcs[k.0].params },
                block,
                n,
                widen(q, entered),
            ),
        ),
    decreases block, n,
{
    if n > 0 {
        lemma_upto_real(c, st, k, entered, block, n - 1, q);
        let st1 = run_upto(
            c,
            st,
            FrameV { name: k.0, params: c.t.funcs[k.0].params },
            block,
            n - 1,
            widen(q, entered),
        );
        lemma_occurs_at(c.t, block, block.len() as int, q, n - 1, block[n - 1], q);
        lemma_stmt_real(c, st1, k, entered, block[n - 1], q);
    }
}

proof fn lemma_turn_real(c: ScopeV, st: StateV)
    requires
        finite_scope(c),
        state_real(c, st),
        forall|i: int| 0 <= i < st.queue.len() ==> st.entry.contains_key(#[trigger] st.queue[i]),
    ensures
        state_real(c, turn(c, st)),
{
    if st.queue.len() > 0 && !st.aborted {
        let k = st.queue.last();
        assert(st.entry.contains_key(st.queue[st.queue.len() - 1]));
        let st1 = StateV {
            analyses: st.analyses + 1,
            ..StateV { queue: st.queue.drop_last(), ..st }
        };
        assert(state_real(c, st1)) by {
            assert forall|j: Key| #[trigger] st1.entry.contains_key(j) implies entry_real(
                c.t,
                j,
                st1.entry[j],
            ) && st1.entry[j].finite() by {
                assert(st.entry.contains_key(j));
            }
        }
        if st1.analyses <= MAX_ANALYSES && c.t.funcs.contains_key(k.0) {
            let f = c.t.funcs[k.0];
            let entered = st.entry[k];
            let q = bare_place(k.1);
            assert(entry_place(st1.entry, k).held =~= widen(q, entered).held);
            assert(entry_place(st1.entry, k) == widen(q, entered));
            lemma_block_real(c, st1, k, entered, f.body, q);
        }
    }
}

/// Only functions that can be entered are queued.
spec fn queue_known(st: StateV) -> bool {
    forall|k: Key| #[trigger] st.queue.contains(k) ==> st.entry.contains_key(k)
}

proof fn lemma_grow_known(st: StateV, k: Key, held: Set<Name>)
    requires
        queue_known(st),
    ensures
        queue_known(grow_entry(st, k, held)),
{
    let st2 = grow_entry(st, k, held);
    assert forall|j: Key| #[trigger] st2.queue.contains(j) implies st2.entry.contains_key(j) by {
        let i = choose|i: int| 0 <= i < st2.queue.len() && st2.queue[i] == j;
        if i < st.queue.len() {
            assert(st.queue[i] == j);
            assert(st.queue.contains(j));
        }
    }
}

proof fn lemma_grow_all_known(st: StateV, fs: Seq<Name>, masked: bool, held: Set<Name>)
    requires
        queue_known(st),
    ensures
        queue_known(grow_all(st, fs, masked, held)),
    decreases fs.len(),
{
    if fs.len() > 0 {
        lemma_grow_all_known(st, fs.drop_last(), masked, held);
        lemma_grow_known(
            grow_all(st, fs.drop_last(), masked, held),
            (fs.last(), masked),
            held,
        );
    }
}

proof fn lemma_extern_acquires_known(
    c: ScopeV,
    st: StateV,
    name: Name,
    line: nat,
    held: Set<Name>,
    masked: bool,
    acquires: Seq<Name>,
)
    requires
        queue_known(st),
    ensures
        queue_known(extern_acquires(c, st, name, line, held, masked, acquires)),
    decreases acquires.len(),
{
    if acquires.len() > 0 {
        lemma_extern_acquires_known(c, st, name, line, held, masked, acquires.drop_last());
    }
}

proof fn lemma_apply_all_known(
    c: ScopeV,
    st: StateV,
    es: Seq<Name>,
    args: Seq<Name>,
    line: nat,
    held: Set<Name>,
    masked: bool,
)
    requires
        queue_known(st),
    ensures
        queue_known(apply_all(c, st, es, args, line, held, masked)),
    decreases es.len(),
{
    if es.len() > 0 {
        let st1 = apply_all(c, st, es.drop_last(), args, line, held, masked);
        lemma_apply_all_known(c, st, es.drop_last(), args, line, held, masked);
        lemma_extern_acquires_known(
            c,
            st1,
            es.last(),
            line,
            held,
            masked,
            c.t.externs[es.last()],
        );
    }
}

proof fn lemma_check_args_known(
    c: ScopeV,
    st: StateV,
    params: Seq<Name>,
    args: Seq<Name>,
    line: nat,
)
    requires
        queue_known(st),
    ensures
        queue_known(check_args(c, st, params, args, line)),
    decreases args.len(),
{
    if args.len() > 0 {
        lemma_check_args_known(c, st, params, args.drop_last(), line);
    }
}

proof fn lemma_check_locks_known(c: ScopeV, st: StateV, locks: Seq<Name>, line: nat)
    requires
        queue_known(st),
    ensures
        queue_known(check_locks(c, st, locks, line)),
    decreases locks.len(),
{
    if locks.len() > 0 {
        lemma_check_locks_known(c, st, locks.drop_last(), line);
    }
}

proof fn lemma_call_known(
    c: ScopeV,
    st: StateV,
    frame: FrameV,
    callee: Name,
    args: Seq<Name>,
    line: nat,
    held: Set<Name>,
    masked: bool,
)
    requires
        queue_known(st),
    ensures
        queue_known(call_stmt(c, st, frame, callee, args, line, held, masked)),
{
    let st1 = check_args(c, st, frame.params, args, line);
    lemma_check_args_known(c, st, frame.params, args, line);
    if frame.params.contains(callee) {
        let fs = sorted(flowing_funcs(c.t, frame.name, callee));
        let es = sorted(flowing_externs(c.t, frame.name, callee));
        let st2 = if fs.len() == 1 && es.len() == 0 && c.t.funcs.contains_key(fs[0])
            && c.t.funcs[fs[0]].params.len() != args.len() {
            fail_arity(c, st1, line, fs[0], c.t.funcs[fs[0]].params.len(), args.len())
        } else {
            st1
        };
        assert(queue_known(st2));
        lemma_grow_all_known(st2, fs, masked, held);
        lemma_apply_all_known(c, grow_all(st2, fs, masked, held), es, args, line, held, masked);
    } else if c.t.funcs.contains_key(callee) {
        lemma_grow_known(st1, (callee, masked), held);
    } else {
        lemma_extern_acquires_known(c, st, callee, line, held, masked, c.t.externs[callee]);
    }
}

proof fn lemma_stmt_known(c: ScopeV, st: StateV, frame: FrameV, s: StmtV, p: PlaceV)
    requires
        queue_known(st),
    ensures
        queue_known(run_stmt(c, st, frame, s, p)),
    decreases s,
{
    match s {
        StmtV::With { lock, line, body } => {
            if c.t.lock_class.contains_key(lock) {
                let class = c.t.lock_class[lock];
                let idx = c.t.lock_index[lock];
                let st1 = emit(c, st, frame.name, line, counted_held(p, class, idx), class);
                let st2 = emit_preemption(c, st1, frame.name, line, class, p.masked);
                lemma_block_known(c, st2, frame, body, inside_with(p, class, idx));
            }
        },
        StmtV::Ordered { locks, line, body } => {
            let st1 = check_locks(c, st, locks, line);
            let q = lock_classes(c.t, locks);
            lemma_check_locks_known(c, st, locks, line);
            let st2 = emit(c, st1, frame.name, line, p.held, q[0]);
            let st3 = emit_preemption(c, st2, frame.name, line, q[0], p.masked);
            lemma_block_known(
                c,
                st3,
                frame,
                body,
                inside_ordered(c.t, p, locks),
            );
        },
        StmtV::Couple { class, line, body } => {
            let coupled = if p.coupled.contains_key(class) {
                p.coupled
            } else {
                p.coupled.insert(class, None)
            };
            lemma_block_known(c, st, frame, body, PlaceV { coupled, depth: p.depth + 1, ..p });
        },
        StmtV::Mask { body } => {
            lemma_block_known(
                c,
                st,
                frame,
                body,
                PlaceV { masked: true, depth: p.depth + 1, ..p },
            );
        },
        StmtV::Call { callee, args, line } => {
            lemma_call_known(c, st, frame, callee, args, line, p.held, p.masked);
        },
    }
}

proof fn lemma_block_known(c: ScopeV, st: StateV, frame: FrameV, block: Seq<StmtV>, p: PlaceV)
    requires
        queue_known(st),
    ensures
        queue_known(run_block(c, st, frame, block, p)),
    decreases block, block.len() + 1,
{
    if !st.aborted && p.depth <= MAX_DEPTH {
        lemma_upto_known(c, st, frame, block, block.len() as int, p);
    }
}

proof fn lemma_upto_known(
    c: ScopeV,
    st: StateV,
    frame: FrameV,
    block: Seq<StmtV>,
    n: int,
    p: PlaceV,
)
    requires
        queue_known(st),
    ensures
        queue_known(run_upto(c, st, frame, block, n, p)),
    decreases block, n,
{
    if 0 < n <= block.len() {
        lemma_upto_known(c, st, frame, block, n - 1, p);
        lemma_stmt_known(
            c,
            run_upto(c, st, frame, block, n - 1, p),
            frame,
            block[n - 1],
            p,
        );
    }
}

proof fn lemma_turns_real(c: ScopeV, st: StateV, n: nat)
    requires
        finite_scope(c),
        state_real(c, st),
        queue_known(st),
    ensures
        state_real(c, turns(c, st, n)),
        queue_known(turns(c, st, n)),
    decreases n,
{
    if n > 0 {
        let st1 = turns(c, st, (n - 1) as nat);
        lemma_turns_real(c, st, (n - 1) as nat);
        assert forall|i: int| 0 <= i < st1.queue.len() implies st1.entry.contains_key(
            #[trigger] st1.queue[i],
        ) by {
            assert(st1.queue.contains(st1.queue[i]));
        }
        lemma_turn_real(c, st1);
        if st1.queue.len() > 0 && !st1.aborted {
            let k = st1.queue.last();
            let st2 = StateV {
                analyses: st1.analyses + 1,
                ..StateV { queue: st1.queue.drop_last(), ..st1 }
            };
            assert(queue_known(st2)) by {
                assert forall|j: Key| #[trigger] st2.queue.contains(j) implies st2.entry.contains_key(
                    j,
                ) by {
                    let i = choose|i: int| 0 <= i < st2.queue.len() && st2.queue[i] == j;
                    assert(st1.queue[i] == j);
                }
            }
            if c.t.funcs.contains_key(k.0) {
                let f = c.t.funcs[k.0];
                lemma_block_known(
                    c,
                    st2,
                    FrameV { name: k.0, params: f.params },
                    f.body,
                    entry_place(st2.entry, k),
                );
            }
        }
    }
}

proof fn lemma_seed_real(c: ScopeV, st: StateV, fs: Seq<Name>)
    requires
        state_real(c, st),
        queue_known(st),
        forall|i: int| 0 <= i < fs.len() ==> c.t.funcs.contains_key(#[trigger] fs[i]),
    ensures
        state_real(c, seed_all(c, st, fs)),
        queue_known(seed_all(c, st, fs)),
    decreases fs.len(),
{
    if fs.len() > 0 {
        let r = fs.drop_last();
        assert forall|i: int| 0 <= i < r.len() implies c.t.funcs.contains_key(
            #[trigger] r[i],
        ) by {
            assert(r[i] == fs[i]);
        }
        lemma_seed_real(c, st, r);
        let st1 = seed_all(c, st, r);
        let f = fs.last();
        assert(c.t.funcs.contains_key(fs[fs.len() - 1]));
        let k: Key = (f, c.t.funcs[f].is_isr);
        let held = start_held(c.t, f);
        assert(context_in(c.t, 0, k, held));
        assert(context(c.t, k, held));
        assert(entry_real(c.t, k, held));
        lemma_grow_real(c, st1, k, held);
        lemma_grow_known(st1, k, held);
        let st2 = seed_all(c, st, fs);
        let st3 = grow_entry(st1, k, held);
        assert(st2.entry == st3.entry && st2.events == st3.events);
        assert forall|j: Key| #[trigger] st2.queue.contains(j) implies st2.entry.contains_key(j) by {
            let i = choose|i: int| 0 <= i < st2.queue.len() && st2.queue[i] == j;
            if i < st1.queue.len() {
                assert(st1.queue[i] == j);
                assert(st1.queue.contains(j));
            }
        }
    }
}

proof fn lemma_analyzed_real(c: ScopeV)
    requires
        finite_scope(c),
    ensures
        events_real(c.t, analyzed(c).events),
{
    let fs = sorted(c.t.funcs.dom());
    lemma_sorted_set(c.t.funcs.dom());
    assert forall|i: int| 0 <= i < fs.len() implies c.t.funcs.contains_key(#[trigger] fs[i]) by {
        assert(fs.contains(fs[i]));
    }
    lemma_seed_real(c, no_state(c.t), fs);
    lemma_turns_real(c, seeded(c), (MAX_ANALYSES + 1) as nat);
}

/// Every edge of the analysis comes from an exact held-set, even where the
/// analysis stopped early: a deadlock found in a partial analysis is real.
pub proof fn every_edge_is_real(
    items: Seq<ItemV>,
    file: Name,
    p: ProgramV,
    before: Name,
    after: Name,
)
    requires
        lowering(items, file) == Ok::<ProgramV, Seq<Name>>(p),
        has_edge(p.events, before, after),
    ensures
        real_edge(tables_of(items), before, after),
{
    let c = ScopeV { t: tables_of(items), file };
    lemma_tables_finite(items);
    lemma_analyzed_real(c);
    let i = choose|i: int|
        0 <= i < p.events.len() && (#[trigger] p.events[i]).acquires == after
            && p.events[i].held.contains(before);
    assert(analyzed(c).events[i].held.contains(before));
}

/// What is recorded of a block is recorded of every statement inside it.
proof fn lemma_occurs_recorded(
    c: ScopeV,
    st: StateV,
    frame: FrameV,
    block: Seq<StmtV>,
    n: int,
    p: PlaceV,
    held: Set<Name>,
    s: StmtV,
    q: PlaceV,
)
    requires
        block_recorded(c, st, frame, block, n, widen(p, held)),
        occurs(c.t, block, n, p, s, q),
    ensures
        stmt_recorded(c, st, frame, s, widen(q, held)),
    decreases block, n,
{
    if occurs(c.t, block, n - 1, p, s, q) {
        lemma_occurs_recorded(c, st, frame, block, n - 1, p, held, s, q);
    } else {
        lemma_occurs_in_recorded(c, st, frame, block[n - 1], p, held, s, q);
    }
}

proof fn lemma_occurs_in_recorded(
    c: ScopeV,
    st: StateV,
    frame: FrameV,
    x: StmtV,
    p: PlaceV,
    held: Set<Name>,
    s: StmtV,
    q: PlaceV,
)
    requires
        stmt_recorded(c, st, frame, x, widen(p, held)),
        occurs_in(c.t, x, p, s, q),
    ensures
        stmt_recorded(c, st, frame, s, widen(q, held)),
    decreases x,
{
    let w = widen(p, held);
    if !(s == x && q == p) {
        match x {
            StmtV::With { lock, line, body } => {
                let class = c.t.lock_class[lock];
                let idx = c.t.lock_index[lock];
                let p2 = inside_with(p, class, idx);
                assert(inside_with(w, class, idx).held =~= widen(p2, held).held);
                assert(inside_with(w, class, idx) == widen(p2, held));
                lemma_occurs_recorded(
                    c,
                    st,
                    frame,
                    body,
                    body.len() as int,
                    p2,
                    held,
                    s,
                    q,
                );
            },
            StmtV::Ordered { locks, line, body } => {
                let class = lock_classes(c.t, locks)[0];
                let p2 = inside_ordered(c.t, p, locks);
                let w2 = inside_ordered(c.t, w, locks);
                assert(w2.held =~= widen(p2, held).held);
                assert(w2 == widen(p2, held));
                lemma_occurs_recorded(
                    c,
                    st,
                    frame,
                    body,
                    body.len() as int,
                    p2,
                    held,
                    s,
                    q,
                );
            },
            StmtV::Couple { class, line, body } => {
                let coupled = if p.coupled.contains_key(class) {
                    p.coupled
                } else {
                    p.coupled.insert(class, None)
                };
                let p2 = PlaceV { coupled, depth: p.depth + 1, ..p };
                assert(PlaceV { coupled, depth: w.depth + 1, ..w } == widen(p2, held));
                lemma_occurs_recorded(
                    c,
                    st,
                    frame,
                    body,
                    body.len() as int,
                    p2,
                    held,
                    s,
                    q,
                );
            },
            StmtV::Mask { body } => {
                let p2 = PlaceV { masked: true, depth: p.depth + 1, ..p };
                assert(PlaceV { masked: true, depth: w.depth + 1, ..w } == widen(p2, held));
                lemma_occurs_recorded(
                    c,
                    st,
                    frame,
                    body,
                    body.len() as int,
                    p2,
                    held,
                    s,
                    q,
                );
            },
            StmtV::Call { callee, args, line } => {},
        }
    }
}

/// Every statement of a function that can be entered is recorded.
proof fn lemma_stands_recorded(c: ScopeV, end: StateV, k: Key, s: StmtV, q: PlaceV)
    requires
        end.entry.contains_key(k),
        key_recorded(c, end, k),
        stands(c.t, k, s, q),
    ensures
        stmt_recorded(
            c,
            end,
            FrameV { name: k.0, params: c.t.funcs[k.0].params },
            s,
            widen(q, end.entry[k]),
        ),
{
    let f = c.t.funcs[k.0];
    let held = end.entry[k];
    let p = bare_place(k.1);
    assert(entry_place(end.entry, k).held =~= widen(p, held).held);
    assert(entry_place(end.entry, k) == widen(p, held));
    lemma_occurs_recorded(
        c,
        end,
        FrameV { name: k.0, params: f.params },
        f.body,
        f.body.len() as int,
        p,
        held,
        s,
        q,
    );
}

/// Every exact held-set is part of what the analysis enters the function with.
proof fn lemma_context_entered(c: ScopeV, end: StateV, n: nat, k: Key, h: Set<Name>)
    requires
        forall|f: Name| #[trigger]
            c.t.funcs.contains_key(f) ==> can_enter(
                end,
                (f, c.t.funcs[f].is_isr),
                start_held(c.t, f),
            ),
        forall|k: Key| #[trigger] end.entry.contains_key(k) ==> key_recorded(c, end, k),
        context_in(c.t, n, k, h),
    ensures
        can_enter(end, k, h),
    decreases n,
{
    if n > 0 {
        let (k0, h0) = choose|k0: Key, h0: Set<Name>|
            context_in(c.t, (n - 1) as nat, k0, h0) && #[trigger] passes(c.t, k0, h0, k, h);
        lemma_context_entered(c, end, (n - 1) as nat, k0, h0);
        let (s, q) = choose|s: StmtV, q: PlaceV|
            #[trigger] stands(c.t, k0, s, q) && s is Call && may_run(
                c.t,
                k0.0,
                s->callee,
                TargetV::Func(k.0),
            ) && k.1 == q.masked && h == h0.union(q.held);
        lemma_stands_recorded(c, end, k0, s, q);
        let w = widen(q, end.entry[k0]);
        let frame = FrameV { name: k0.0, params: c.t.funcs[k0.0].params };
        assert(call_recorded(c, end, frame, s->callee, w.held, w.masked));
        assert(target_recorded(c, end, TargetV::Func(k.0), w.held, w.masked)) by {
            if frame.params.contains(s->callee) {
                assert(flows(c.t, frame.name, s->callee, TargetV::Func(k.0)));
            }
        }
        assert(k == (k.0, q.masked));
        assert(h.subset_of(w.held));
    }
}

proof fn lemma_preempts_edge(
    c: ScopeV,
    end: StateV,
    masked: bool,
    class: Name,
    before: Name,
    after: Name,
)
    requires
        has_preemption(c, end, class, masked),
        preempts(c.t, masked, class, before, after),
    ensures
        has_edge(end.events, before, after),
{
    lemma_event_edge(end, Set::<Name>::empty().insert(class), cpu(), class);
}

proof fn lemma_orders_edge(
    c: ScopeV,
    end: StateV,
    k: Key,
    h: Set<Name>,
    s: StmtV,
    q: PlaceV,
    before: Name,
    after: Name,
)
    requires
        can_enter(end, k, h),
        key_recorded(c, end, k),
        stands(c.t, k, s, q),
        orders(c.t, k.0, s, widen(q, h), before, after),
    ensures
        has_edge(end.events, before, after),
{
    let t = c.t;
    let frame = FrameV { name: k.0, params: t.funcs[k.0].params };
    let w = widen(q, end.entry[k]);
    let v = widen(q, h);
    lemma_stands_recorded(c, end, k, s, q);
    assert(v.held.subset_of(w.held));
    match s {
        StmtV::With { lock, line, body } => {
            let class = t.lock_class[lock];
            let idx = t.lock_index[lock];
            if preempts(t, q.masked, class, before, after) {
                lemma_preempts_edge(c, end, q.masked, class, before, after);
            } else {
                assert(counted_held(w, class, idx).contains(before));
                lemma_event_edge(end, counted_held(w, class, idx), class, before);
            }
        },
        StmtV::Ordered { locks, line, body } => {
            let class = lock_classes(t, locks)[0];
            if preempts(t, q.masked, class, before, after) {
                lemma_preempts_edge(c, end, q.masked, class, before, after);
            } else {
                lemma_event_edge(end, w.held, class, before);
            }
        },
        StmtV::Call { callee, args, line } => {
            let e = choose|e: Name| #[trigger]
                may_run(t, k.0, callee, TargetV::Extern(e)) && t.externs.contains_key(e)
                    && extern_orders(t, t.externs[e], v.held, v.masked, before, after);
            let acq = t.externs[e];
            assert(call_recorded(c, end, frame, callee, w.held, w.masked));
            assert(target_recorded(c, end, TargetV::Extern(e), w.held, w.masked)) by {
                if frame.params.contains(callee) {
                    assert(flows(c.t, frame.name, callee, TargetV::Extern(e)));
                }
            }
            let i = choose|i: int|
                0 <= i < acq.len() && ((after == #[trigger] acq[i] && v.held.union(
                    acq.take(i).to_set(),
                ).contains(before)) || preempts(t, v.masked, acq[i], before, after));
            assert(turn_recorded(c, end, acq, i, w.held, w.masked));
            if preempts(t, v.masked, acq[i], before, after) {
                lemma_preempts_edge(c, end, q.masked, acq[i], before, after);
            } else {
                lemma_event_edge(
                    end,
                    w.held.union(acq.take(i).to_set()),
                    acq[i],
                    before,
                );
            }
        },
        _ => {},
    }
}

/// A complete analysis is exact: its edges are those that the exact held-sets
/// give, no more and no less.
pub proof fn complete_analysis_is_exact(
    items: Seq<ItemV>,
    file: Name,
    p: ProgramV,
    before: Name,
    after: Name,
)
    requires
        lowering(items, file) == Ok::<ProgramV, Seq<Name>>(p),
        p.incomplete is None,
    ensures
        has_edge(p.events, before, after) <==> real_edge(tables_of(items), before, after),
{
    let t = tables_of(items);
    let c = ScopeV { t, file };
    let end = analyzed(c);
    lemma_tables_finite(items);
    lemma_analyzed(c);
    if has_edge(p.events, before, after) {
        every_edge_is_real(items, file, p, before, after);
    }
    if real_edge(t, before, after) {
        let (k, h) = choose|k: Key, h: Set<Name>| #[trigger]
            context(t, k, h) && gives_edge(t, k, h, before, after);
        let n = choose|n: nat| context_in(t, n, k, h);
        lemma_context_entered(c, end, n, k, h);
        let (s, q) = choose|s: StmtV, q: PlaceV|
            #[trigger] stands(t, k, s, q) && orders(t, k.0, s, widen(q, h), before, after);
        lemma_orders_edge(c, end, k, h, s, q, before, after);
    }
}

/// A couple hides nothing but a strict descent in its own class: where a held
/// class does not count, it is the class of the lock that is taken, it is coupled,
/// and the lock comes after the one taken last in the couple.
pub proof fn couple_hides_only_a_descent(p: PlaceV, class: Name, idx: usize, h: Name)
    requires
        p.held.contains(h),
        !counted_held(p, class, idx).contains(h),
    ensures
        h == class,
        p.coupled.contains_key(class),
        p.coupled[class] is Some ==> p.coupled[class]->0 < idx,
{
}

/// No lock and no extern bears the class of the processor. Of a parsed program
/// this holds: `<cpu>` is no identifier.
pub open spec fn processor_is_synthetic(t: TablesV) -> bool {
    &&& forall|l: Name| #[trigger] t.lock_class.contains_key(l) ==> t.lock_class[l] != cpu()
    &&& forall|e: Name| #[trigger] t.externs.contains_key(e) ==> !t.externs[e].contains(cpu())
}

proof fn lemma_occurs_without_cpu(
    t: TablesV,
    block: Seq<StmtV>,
    n: int,
    p: PlaceV,
    s: StmtV,
    q: PlaceV,
)
    requires
        processor_is_synthetic(t),
        !p.held.contains(cpu()),
        occurs(t, block, n, p, s, q),
    ensures
        !q.held.contains(cpu()),
    decreases block, n,
{
    if occurs(t, block, n - 1, p, s, q) {
        lemma_occurs_without_cpu(t, block, n - 1, p, s, q);
    } else {
        lemma_occurs_in_without_cpu(t, block[n - 1], p, s, q);
    }
}

proof fn lemma_occurs_in_without_cpu(t: TablesV, x: StmtV, p: PlaceV, s: StmtV, q: PlaceV)
    requires
        processor_is_synthetic(t),
        !p.held.contains(cpu()),
        occurs_in(t, x, p, s, q),
    ensures
        !q.held.contains(cpu()),
    decreases x,
{
    if !(s == x && q == p) {
        match x {
            StmtV::With { lock, line, body } => {
                let inner = inside_with(p, t.lock_class[lock], t.lock_index[lock]);
                lemma_occurs_without_cpu(t, body, body.len() as int, inner, s, q);
            },
            StmtV::Ordered { locks, line, body } => {
                let inner = inside_ordered(t, p, locks);
                assert(t.lock_class.contains_key(locks[0]));
                assert(lock_classes(t, locks)[0] == t.lock_class[locks[0]]);
                lemma_occurs_without_cpu(t, body, body.len() as int, inner, s, q);
            },
            StmtV::Couple { class, line, body } => {
                let coupled = if p.coupled.contains_key(class) {
                    p.coupled
                } else {
                    p.coupled.insert(class, None)
                };
                let inner = PlaceV { coupled, depth: p.depth + 1, ..p };
                lemma_occurs_without_cpu(t, body, body.len() as int, inner, s, q);
            },
            StmtV::Mask { body } => {
                let inner = PlaceV { masked: true, depth: p.depth + 1, ..p };
                lemma_occurs_without_cpu(t, body, body.len() as int, inner, s, q);
            },
            StmtV::Call { callee, args, line } => {},
        }
    }
}

proof fn lemma_context_without_cpu(t: TablesV, n: nat, k: Key, h: Set<Name>)
    requires
        processor_is_synthetic(t),
        !has_isr(t),
        context_in(t, n, k, h),
    ensures
        !h.contains(cpu()),
    decreases n,
{
    if n > 0 {
        let (k0, h0) = choose|k0: Key, h0: Set<Name>|
            context_in(t, (n - 1) as nat, k0, h0) && #[trigger] passes(t, k0, h0, k, h);
        lemma_context_without_cpu(t, (n - 1) as nat, k0, h0);
        let (s, q) = choose|s: StmtV, q: PlaceV|
            #[trigger] stands(t, k0, s, q) && s is Call && may_run(
                t,
                k0.0,
                s->callee,
                TargetV::Func(k.0),
            ) && k.1 == q.masked && h == h0.union(q.held);
        let body = t.funcs[k0.0].body;
        lemma_occurs_without_cpu(t, body, body.len() as int, bare_place(k0.1), s, q);
    }
}

/// Preemption is inert unless the program declares an interrupt handler: without
/// one, no edge comes from the processor or leads to it.
pub proof fn preemption_needs_a_handler(
    items: Seq<ItemV>,
    file: Name,
    p: ProgramV,
    before: Name,
    after: Name,
)
    requires
        lowering(items, file) == Ok::<ProgramV, Seq<Name>>(p),
        processor_is_synthetic(tables_of(items)),
        !has_isr(tables_of(items)),
        has_edge(p.events, before, after),
    ensures
        before != cpu(),
        after != cpu(),
{
    let t = tables_of(items);
    every_edge_is_real(items, file, p, before, after);
    let (k, h) = choose|k: Key, h: Set<Name>| #[trigger]
        context(t, k, h) && gives_edge(t, k, h, before, after);
    let n = choose|n: nat| context_in(t, n, k, h);
    lemma_context_without_cpu(t, n, k, h);
    let (s, q) = choose|s: StmtV, q: PlaceV|
        #[trigger] stands(t, k, s, q) && orders(t, k.0, s, widen(q, h), before, after);
    let body = t.funcs[k.0].body;
    lemma_occurs_without_cpu(t, body, body.len() as int, bare_place(k.1), s, q);
    match s {
        StmtV::Ordered { locks, line, body } => {
            assert(t.lock_class.contains_key(locks[0]));
            assert(lock_classes(t, locks)[0] == t.lock_class[locks[0]]);
        },
        StmtV::Call { callee, args, line } => {
            let e = choose|e: Name| #[trigger]
                may_run(t, k.0, callee, TargetV::Extern(e)) && t.externs.contains_key(e)
                    && extern_orders(t, t.externs[e], widen(q, h).held, q.masked, before, after);
            let classes = t.externs[e];
            let i = choose|i: int|
                0 <= i < classes.len() && ((after == #[trigger] classes[i] && widen(
                    q,
                    h,
                ).held.union(classes.take(i).to_set()).contains(before)) || preempts(
                    t,
                    q.masked,
                    classes[i],
                    before,
                    after,
                ));
            assert(classes.contains(classes[i]));
            if classes.take(i).to_set().contains(before) {
                let j = choose|j: int| 0 <= j < i && classes.take(i)[j] == before;
                assert(classes[j] == before);
            }
        },
        _ => {},
    }
}

/// Inside a couple a lock may be taken under those that are declared before it:
/// once the lock number `i` of the class is taken, taking number `j` counts the
/// class as held exactly if `j` does not come after `i`. Every other class counts
/// as held exactly if it is, and outside a couple so does the class itself.
pub proof fn couples_hide_every_descent(p: PlaceV, class: Name, i: usize, j: usize, h: Name)
    requires
        p.coupled.contains_key(class),
    ensures
        ({
            let inner = inside_with(p, class, i);
            &&& counted_held(inner, class, j).contains(class) <==> j <= i
            &&& h != class ==> (counted_held(inner, class, j).contains(h) <==> p.held.contains(h))
        }),
        p.coupled[class] is None ==> !counted_held(p, class, j).contains(class),
{
}

/// Outside a couple every class that is held counts, and what is taken is held.
pub proof fn locks_count_outside_couples(p: PlaceV, class: Name, i: usize, j: usize, h: Name)
    requires
        !p.coupled.contains_key(class),
    ensures
        ({
            let inner = inside_with(p, class, i);
            &&& counted_held(inner, class, j).contains(class)
            &&& h != class ==> (counted_held(inner, class, j).contains(h) <==> p.held.contains(h))
            &&& inner.masked == p.masked
        }),
{
}

/// After an `ordered` inside a couple, taking lock number `j` counts the class as
/// held exactly if `j` does not come after all locks of the `ordered`.
pub proof fn couples_go_on_behind_an_ordered(
    t: TablesV,
    p: PlaceV,
    locks: Seq<Name>,
    j: usize,
    k: int,
)
    requires
        0 <= k < locks.len(),
        p.coupled.contains_key(t.lock_class[locks[0]]),
    ensures
        ({
            let class = t.lock_class[locks[0]];
            let inner = inside_ordered(t, p, locks);
            &&& j <= t.lock_index[locks[k]] ==> counted_held(inner, class, j).contains(class)
            &&& (forall|m: int| 0 <= m < locks.len() ==> t.lock_index[#[trigger] locks[m]] < j)
                ==> !counted_held(inner, class, j).contains(class)
        }),
{
    lemma_last(t, locks, k);
    if forall|m: int| 0 <= m < locks.len() ==> t.lock_index[#[trigger] locks[m]] < j {
        lemma_last_below(t, locks, j);
    }
}

proof fn lemma_last(t: TablesV, locks: Seq<Name>, k: int)
    requires
        0 <= k < locks.len(),
    ensures
        t.lock_index[locks[k]] <= last_index(t, locks),
    decreases locks.len(),
{
    if k < locks.len() - 1 {
        lemma_last(t, locks.drop_last(), k);
        assert(locks.drop_last()[k] == locks[k]);
    }
}

proof fn lemma_last_below(t: TablesV, locks: Seq<Name>, j: usize)
    requires
        forall|m: int| 0 <= m < locks.len() ==> t.lock_index[#[trigger] locks[m]] < j,
    ensures
        locks.len() > 0 ==> last_index(t, locks) < j,
    decreases locks.len(),
{
    if locks.len() > 0 {
        let r = locks.drop_last();
        assert forall|m: int| 0 <= m < r.len() implies t.lock_index[#[trigger] r[m]] < j by {
            assert(r[m] == locks[m]);
        }
        lemma_last_below(t, r, j);
        if r.len() == 0 {
            assert(last_index(t, r) == 0);
        }
        let last = t.lock_index[locks[locks.len() - 1]];
        assert(last < j);
        assert(last_index(t, locks) == if last_index(t, r) < last {
            last
        } else {
            last_index(t, r)
        });
    }
}

}
