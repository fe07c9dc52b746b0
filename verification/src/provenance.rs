//! Where events come from: each names the function, the statement and the class
//! that it was recorded for.

use vstd::prelude::*;

use crate::acceptance::{body_of, stmt_at};
use crate::ast::{ItemV, StmtV};
use crate::flow::{flowing_externs, flowing_funcs};
use crate::frontend::{
    all_declared, all_same, analyzed, apply_all, apply_extern, call_stmt, check_args, check_locks,
    counted_held, cpu, emit, emit_preemption, entry_place, extern_acquires, fail_arity, grow_all,
    inside_ordered, inside_with, lock_classes, lowering, no_state, run_block, run_stmt, run_upto,
    seed_all, seeded, turns, FrameV, PlaceV, ScopeV, StateV, MAX_ANALYSES,
};
use crate::model::{EventV, ProgramV};
use crate::ordset::{lemma_sorted, sorted};
use crate::tables::{tables_of, TablesV};
use crate::text::{dec, Name};

verus! {

/// The event takes `class` at the line: it is recorded for `function`, and
/// acquires the class, or the processor with the class held.
pub open spec fn is_recorded_at(
    e: EventV,
    function: Name,
    file: Name,
    line: nat,
    class: Name,
) -> bool {
    &&& e.function == function
    &&& e.site == file + ":"@ + dec(line)
    &&& e.acquires == class || e.acquires == "<cpu>"@ && e.held == seq![class]
}

/// The event is recorded for the statement `s` of the function `f`: for a `with`
/// as an acquisition of the class of its locks by the function; for a call as an
/// acquisition of a class that some extern declares, by that extern.
pub open spec fn is_recorded_for(t: TablesV, file: Name, e: EventV, f: Name, s: StmtV) -> bool {
    match s {
        StmtV::With { lock, line, body } => t.lock_class.contains_key(lock) && is_recorded_at(
            e,
            f,
            file,
            line,
            t.lock_class[lock],
        ),
        StmtV::Ordered { locks, line, body } => locks.len() > 0 && is_recorded_at(
            e,
            f,
            file,
            line,
            t.lock_class[locks[0]],
        ),
        StmtV::Call { callee, args, line } => exists|x: Name, k: int|
            t.externs.contains_key(x) && 0 <= k < t.externs[x].len() && #[trigger] is_recorded_at(
                e,
                x,
                file,
                line,
                t.externs[x][k],
            ),
        _ => false,
    }
}

/// The event is recorded for the statement that is reached by the numbers `path`
/// in the function `f`.
pub open spec fn is_from(t: TablesV, file: Name, e: EventV, f: Name, path: Seq<int>) -> bool {
    &&& t.funcs.contains_key(f)
    &&& stmt_at(t.funcs[f].body, path) is Some
    &&& is_recorded_for(t, file, e, f, stmt_at(t.funcs[f].body, path)->0)
}

/// The event is recorded for some statement of some function.
pub open spec fn has_source(t: TablesV, file: Name, e: EventV) -> bool {
    exists|f: Name, path: Seq<int>| #[trigger] is_from(t, file, e, f, path)
}

spec fn all_have_sources(c: ScopeV, st: StateV) -> bool {
    forall|i: int| 0 <= i < st.events.len() ==> has_source(c.t, c.file, #[trigger] st.events[i])
}

/// The statement stands at the end of the path in the function of the frame.
spec fn stands_in(c: ScopeV, f: Name, path: Seq<int>, s: StmtV) -> bool {
    c.t.funcs.contains_key(f) && stmt_at(c.t.funcs[f].body, path) == Some(s)
}

proof fn lemma_push_event(a: Seq<EventV>, e: EventV, c: ScopeV)
    requires
        forall|i: int| 0 <= i < a.len() ==> has_source(c.t, c.file, #[trigger] a[i]),
        has_source(c.t, c.file, e),
    ensures
        forall|i: int| 0 <= i < a.push(e).len() ==> has_source(c.t, c.file, #[trigger] a.push(e)[i]),
{
    let b = a.push(e);
    assert forall|i: int| 0 <= i < b.len() implies has_source(c.t, c.file, #[trigger] b[i]) by {
        if i < a.len() {
            assert(b[i] == a[i]);
        }
    }
}

proof fn lemma_single(class: Name)
    ensures
        sorted(Set::<Name>::empty().insert(class)) == seq![class],
{
    let q = seq![class];
    assert(q.to_set() =~= Set::<Name>::empty().insert(class)) by {
        assert(q[0] == class);
        assert forall|x: Name| q.to_set().contains(x) <==> x == class by {
            if x == class {
                assert(q.contains(x));
            }
        }
    }
    lemma_sorted(q);
}

proof fn lemma_emit(
    c: ScopeV,
    st: StateV,
    f: Name,
    path: Seq<int>,
    s: StmtV,
    function: Name,
    line: nat,
    held: Set<Name>,
    class: Name,
    masked: bool,
)
    requires
        all_have_sources(c, st),
        stands_in(c, f, path, s),
        forall|e: EventV| #[trigger]
            is_recorded_at(e, function, c.file, line, class) ==> is_recorded_for(
                c.t,
                c.file,
                e,
                f,
                s,
            ),
    ensures
        all_have_sources(
            c,
            emit_preemption(
                c,
                emit(c, st, function, line, held, class),
                function,
                line,
                class,
                masked,
            ),
        ),
{
    let st1 = emit(c, st, function, line, held, class);
    let e1 = st1.events[st.events.len() as int];
    assert(is_recorded_at(e1, function, c.file, line, class));
    assert(is_from(c.t, c.file, e1, f, path));
    lemma_push_event(st.events, e1, c);
    let st2 = emit_preemption(c, st1, function, line, class, masked);
    if st2.events.len() > st1.events.len() {
        lemma_single(class);
        let e2 = st2.events[st1.events.len() as int];
        assert(is_recorded_at(e2, function, c.file, line, class));
        assert(is_from(c.t, c.file, e2, f, path));
        lemma_push_event(st1.events, e2, c);
    }
}

proof fn lemma_extern(
    c: ScopeV,
    st: StateV,
    f: Name,
    path: Seq<int>,
    s: StmtV,
    name: Name,
    line: nat,
    held: Set<Name>,
    masked: bool,
    acquires: Seq<Name>,
)
    requires
        all_have_sources(c, st),
        stands_in(c, f, path, s),
        s is Call,
        s->Call_line == line,
        c.t.externs.contains_key(name),
        acquires.len() <= c.t.externs[name].len(),
        acquires == c.t.externs[name].take(acquires.len() as int),
    ensures
        all_have_sources(c, extern_acquires(c, st, name, line, held, masked, acquires)),
    decreases acquires.len(),
{
    if acquires.len() > 0 {
        let before = acquires.drop_last();
        let n = before.len() as int;
        assert(before =~= c.t.externs[name].take(n));
        lemma_extern(c, st, f, path, s, name, line, held, masked, before);
        let class = acquires.last();
        assert(class == c.t.externs[name][n]);
        lemma_emit(
            c,
            extern_acquires(c, st, name, line, held, masked, before),
            f,
            path,
            s,
            name,
            line,
            held.union(before.to_set()),
            class,
            masked,
        );
    }
}

proof fn lemma_apply(
    c: ScopeV,
    st: StateV,
    f: Name,
    path: Seq<int>,
    s: StmtV,
    name: Name,
    args: Seq<Name>,
    held: Set<Name>,
    masked: bool,
)
    requires
        all_have_sources(c, st),
        stands_in(c, f, path, s),
        s is Call,
    ensures
        all_have_sources(c, apply_extern(c, st, name, args, s->Call_line, held, masked)),
{
    if args.len() == 0 && c.t.externs.contains_key(name) {
        let q = c.t.externs[name];
        assert(q.take(q.len() as int) =~= q);
        lemma_extern(c, st, f, path, s, name, s->Call_line, held, masked, q);
    }
}

proof fn lemma_apply_all(
    c: ScopeV,
    st: StateV,
    f: Name,
    path: Seq<int>,
    s: StmtV,
    es: Seq<Name>,
    args: Seq<Name>,
    held: Set<Name>,
    masked: bool,
)
    requires
        all_have_sources(c, st),
        stands_in(c, f, path, s),
        s is Call,
    ensures
        all_have_sources(c, apply_all(c, st, es, args, s->Call_line, held, masked)),
    decreases es.len(),
{
    if es.len() > 0 {
        lemma_apply_all(c, st, f, path, s, es.drop_last(), args, held, masked);
        lemma_apply(
            c,
            apply_all(c, st, es.drop_last(), args, s->Call_line, held, masked),
            f,
            path,
            s,
            es.last(),
            args,
            held,
            masked,
        );
    }
}

proof fn lemma_checked(c: ScopeV, st: StateV, params: Seq<Name>, args: Seq<Name>, line: nat)
    ensures
        check_args(c, st, params, args, line).events == st.events,
        check_locks(c, st, args, line).events == st.events,
    decreases args.len(),
{
    if args.len() > 0 {
        lemma_checked(c, st, params, args.drop_last(), line);
    }
}

proof fn lemma_grown(st: StateV, fs: Seq<Name>, masked: bool, held: Set<Name>)
    ensures
        grow_all(st, fs, masked, held).events == st.events,
    decreases fs.len(),
{
    if fs.len() > 0 {
        lemma_grown(st, fs.drop_last(), masked, held);
    }
}

proof fn lemma_call(
    c: ScopeV,
    st: StateV,
    frame: FrameV,
    path: Seq<int>,
    s: StmtV,
    held: Set<Name>,
    masked: bool,
)
    requires
        all_have_sources(c, st),
        stands_in(c, frame.name, path, s),
        s is Call,
    ensures
        all_have_sources(
            c,
            call_stmt(c, st, frame, s->callee, s->args, s->Call_line, held, masked),
        ),
{
    let callee = s->callee;
    let args = s->args;
    let line = s->Call_line;
    let st1 = check_args(c, st, frame.params, args, line);
    lemma_checked(c, st, frame.params, args, line);
    if frame.params.contains(callee) {
        let fs = sorted(flowing_funcs(c.t, frame.name, callee));
        let es = sorted(flowing_externs(c.t, frame.name, callee));
        let st2 = if fs.len() == 1 && es.len() == 0 && c.t.funcs.contains_key(fs[0])
            && c.t.funcs[fs[0]].params.len() != args.len() {
            fail_arity(c, st1, line, fs[0], c.t.funcs[fs[0]].params.len(), args.len())
        } else {
            st1
        };
        assert(st2.events == st.events);
        let st3 = grow_all(st2, fs, masked, held);
        lemma_grown(st2, fs, masked, held);
        assert(all_have_sources(c, st3));
        lemma_apply_all(c, st3, frame.name, path, s, es, args, held, masked);
    } else if c.t.funcs.contains_key(callee) {
    } else if c.t.externs.contains_key(callee) {
        lemma_apply(c, st, frame.name, path, s, callee, args, held, masked);
    }
}

/// The path to a statement of the block of a statement.
pub proof fn lemma_deeper(block: Seq<StmtV>, path: Seq<int>, i: int)
    requires
        stmt_at(block, path) is Some,
        0 <= i < body_of(stmt_at(block, path)->0).len(),
    ensures
        stmt_at(block, path.push(i)) == Some(body_of(stmt_at(block, path)->0)[i]),
    decreases path.len(),
{
    let p = path.push(i);
    assert(p[0] == path[0]);
    let x = block[path[0]];
    if path.len() == 1 {
        assert(p.drop_first() =~= seq![i]);
        assert(stmt_at(body_of(x), seq![i]) == Some(body_of(x)[i]));
    } else {
        lemma_deeper(body_of(x), path.drop_first(), i);
        assert(p.drop_first() =~= path.drop_first().push(i));
    }
}

proof fn lemma_stmt(
    c: ScopeV,
    st: StateV,
    frame: FrameV,
    path: Seq<int>,
    s: StmtV,
    p: PlaceV,
)
    requires
        all_have_sources(c, st),
        stands_in(c, frame.name, path, s),
    ensures
        all_have_sources(c, run_stmt(c, st, frame, s, p)),
    decreases s,
{
    match s {
        StmtV::With { lock, line, body } => {
            if c.t.lock_class.contains_key(lock) {
                let class = c.t.lock_class[lock];
                let idx = c.t.lock_index[lock];
                let held = counted_held(p, class, idx);
                lemma_emit(c, st, frame.name, path, s, frame.name, line, held, class, p.masked);
                let st1 = emit(c, st, frame.name, line, held, class);
                let st2 = emit_preemption(c, st1, frame.name, line, class, p.masked);
                lemma_body(c, st2, frame, path, s, body, inside_with(p, class, idx));
            }
        },
        StmtV::Ordered { locks, line, body } => {
            let st1 = check_locks(c, st, locks, line);
            lemma_checked(c, st, locks, locks, line);
            let q = lock_classes(c.t, locks);
            if all_declared(c.t, locks) && locks.len() > 0 && all_same(q) {
                assert(q[0] == c.t.lock_class[locks[0]]);
                lemma_emit(c, st1, frame.name, path, s, frame.name, line, p.held, q[0], p.masked);
                let st2 = emit(c, st1, frame.name, line, p.held, q[0]);
                let st3 = emit_preemption(c, st2, frame.name, line, q[0], p.masked);
                lemma_body(c, st3, frame, path, s, body, inside_ordered(c.t, p, locks));
            }
        },
        StmtV::Couple { class, line, body } => {
            let coupled = if p.coupled.contains_key(class) {
                p.coupled
            } else {
                p.coupled.insert(class, None)
            };
            lemma_body(c, st, frame, path, s, body, PlaceV { coupled, depth: p.depth + 1, ..p });
        },
        StmtV::Mask { body } => {
            lemma_body(
                c,
                st,
                frame,
                path,
                s,
                body,
                PlaceV { masked: true, depth: p.depth + 1, ..p },
            );
        },
        StmtV::Call { callee, args, line } => {
            lemma_call(c, st, frame, path, s, p.held, p.masked);
        },
    }
}

proof fn lemma_body(
    c: ScopeV,
    st: StateV,
    frame: FrameV,
    path: Seq<int>,
    s: StmtV,
    block: Seq<StmtV>,
    p: PlaceV,
)
    requires
        all_have_sources(c, st),
        stands_in(c, frame.name, path, s),
        block == body_of(s),
    ensures
        all_have_sources(c, run_block(c, st, frame, block, p)),
    decreases block, block.len() + 1,
{
    lemma_upto(c, st, frame, path, s, block, block.len() as int, p);
}

proof fn lemma_upto(
    c: ScopeV,
    st: StateV,
    frame: FrameV,
    path: Seq<int>,
    s: StmtV,
    block: Seq<StmtV>,
    n: int,
    p: PlaceV,
)
    requires
        all_have_sources(c, st),
        stands_in(c, frame.name, path, s),
        block == body_of(s),
        0 <= n <= block.len(),
    ensures
        all_have_sources(c, run_upto(c, st, frame, block, n, p)),
    decreases block, n,
{
    if n > 0 {
        lemma_upto(c, st, frame, path, s, block, n - 1, p);
        lemma_deeper(c.t.funcs[frame.name].body, path, n - 1);
        lemma_stmt(
            c,
            run_upto(c, st, frame, block, n - 1, p),
            frame,
            path.push(n - 1),
            block[n - 1],
            p,
        );
    }
}

/// The statements of a function.
proof fn lemma_function(c: ScopeV, st: StateV, f: Name, n: int, p: PlaceV)
    requires
        all_have_sources(c, st),
        c.t.funcs.contains_key(f),
        0 <= n <= c.t.funcs[f].body.len(),
    ensures
        all_have_sources(
            c,
            run_upto(
                c,
                st,
                FrameV { name: f, params: c.t.funcs[f].params },
                c.t.funcs[f].body,
                n,
                p,
            ),
        ),
    decreases n,
{
    let frame = FrameV { name: f, params: c.t.funcs[f].params };
    let block = c.t.funcs[f].body;
    if n > 0 {
        lemma_function(c, st, f, n - 1, p);
        let path = seq![n - 1];
        assert(stmt_at(block, path) == Some(block[n - 1]));
        lemma_stmt(c, run_upto(c, st, frame, block, n - 1, p), frame, path, block[n - 1], p);
    }
}

proof fn lemma_turns(c: ScopeV, st: StateV, n: nat)
    requires
        all_have_sources(c, st),
    ensures
        all_have_sources(c, turns(c, st, n)),
    decreases n,
{
    if n > 0 {
        lemma_turns(c, st, (n - 1) as nat);
        let a = turns(c, st, (n - 1) as nat);
        if !(a.queue.len() == 0 || a.aborted) {
            let k = a.queue.last();
            let b = StateV { queue: a.queue.drop_last(), analyses: a.analyses + 1, ..a };
            if c.t.funcs.contains_key(k.0) {
                assert(all_have_sources(c, b));
                lemma_function(
                    c,
                    b,
                    k.0,
                    c.t.funcs[k.0].body.len() as int,
                    entry_place(b.entry, k),
                );
            }
        }
    }
}

proof fn lemma_seeded(c: ScopeV, st: StateV, fs: Seq<Name>)
    ensures
        seed_all(c, st, fs).events == st.events,
    decreases fs.len(),
{
    if fs.len() > 0 {
        lemma_seeded(c, st, fs.drop_last());
    }
}

/// Every event is recorded for a statement: for a `with` as an acquisition of the
/// class of its locks by the function that it stands in, at its line; for a call
/// as an acquisition of a class that an extern declares, by the extern, at the
/// line of the call. Beside these there are only the preemptions that may occur
/// there.
pub proof fn events_come_from_statements(items: Seq<ItemV>, file: Name, p: ProgramV, i: int)
    requires
        lowering(items, file) == Ok::<ProgramV, Seq<Name>>(p),
        0 <= i < p.events.len(),
    ensures
        has_source(tables_of(items), file, p.events[i]),
{
    let c = ScopeV { t: tables_of(items), file };
    let start = seeded(c);
    lemma_seeded(c, no_state(c.t), sorted(c.t.funcs.dom()));
    assert(start.events.len() == 0);
    lemma_turns(c, start, (MAX_ANALYSES + 1) as nat);
    assert(has_source(c.t, c.file, analyzed(c).events[i]));
}

}
