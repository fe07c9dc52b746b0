//! Where errors come from: a program is refused only for its declarations or for
//! a statement, and the message bears the line of the statement.

use vstd::prelude::*;

use crate::acceptance::{
    body_of, declarations_are_accepted_iff_unambiguous, externs_are_proper, is_formed, no_clash,
    params_differ, stmt_at,
};
use crate::ast::{ItemV, StmtV};
use crate::flow::{flowing_externs, flowing_funcs};
use crate::frontend::{
    all_declared, all_same, analyzed, apply_all, apply_extern, call_stmt, check_args, check_locks,
    counted_held, emit, emit_preemption, entry_place, extern_acquires, fail, fail_arity, grow_all,
    inside_ordered, inside_with, is_defined, lock_classes, lowering, no_state, run_block, run_stmt,
    run_upto, seed_all, seeded, turns, FrameV, PlaceV, ScopeV, StateV, MAX_ANALYSES,
};
use crate::model::ProgramV;
use crate::ordset::sorted;
use crate::provenance::lemma_deeper;
use crate::solver::lemma_distinct;
use crate::tables::{is_class, tables_of, TablesV};
use crate::text::{dec, Name};
use crate::unicode::shown_list;

verus! {

/// The line of a statement.
pub open spec fn line_of(s: StmtV) -> nat {
    match s {
        StmtV::With { lock, line, body } => line,
        StmtV::Ordered { locks, line, body } => line,
        StmtV::Couple { class, line, body } => line,
        StmtV::Mask { body } => 0,
        StmtV::Call { callee, args, line } => line,
    }
}

/// The statement may be at fault: it is not well formed, it is a couple, or it
/// calls a parameter.
pub open spec fn may_be_wrong(t: TablesV, params: Seq<Name>, s: StmtV) -> bool {
    ||| !is_formed(t, params, s)
    ||| s is Couple
    ||| s is Call && params.contains(s->callee)
}

/// The message bears the site of a statement that may be at fault, which is
/// reached by the numbers `path` in the function `f`.
pub open spec fn is_blamed(t: TablesV, file: Name, e: Name, f: Name, path: Seq<int>) -> bool {
    &&& t.funcs.contains_key(f)
    &&& stmt_at(t.funcs[f].body, path) is Some
    &&& ({
        let s = stmt_at(t.funcs[f].body, path)->0;
        &&& may_be_wrong(t, t.funcs[f].params, s)
        &&& exists|what: Name| e == #[trigger] (file + ":"@ + dec(line_of(s)) + ": "@ + what)
    })
}

/// The message is that of a declaration, or of some statement.
pub open spec fn has_cause(t: TablesV, file: Name, e: Name) -> bool {
    ||| t.errors.contains(e)
    ||| exists|f: Name, path: Seq<int>| #[trigger] is_blamed(t, file, e, f, path)
}

spec fn all_have_causes(c: ScopeV, st: StateV) -> bool {
    forall|i: int| 0 <= i < st.errors.len() ==> has_cause(c.t, c.file, #[trigger] st.errors[i])
}

/// The statement stands at the end of the path in the function of the frame.
spec fn stands_in(c: ScopeV, frame: FrameV, path: Seq<int>, s: StmtV) -> bool {
    &&& c.t.funcs.contains_key(frame.name)
    &&& frame.params == c.t.funcs[frame.name].params
    &&& stmt_at(c.t.funcs[frame.name].body, path) == Some(s)
}

proof fn lemma_fail(c: ScopeV, st: StateV, frame: FrameV, path: Seq<int>, s: StmtV, what: Name)
    requires
        all_have_causes(c, st),
        stands_in(c, frame, path, s),
        may_be_wrong(c.t, frame.params, s),
    ensures
        all_have_causes(c, fail(c, st, line_of(s), what)),
{
    let st1 = fail(c, st, line_of(s), what);
    let e = st1.errors[st.errors.len() as int];
    assert(e == c.file + ":"@ + dec(line_of(s)) + ": "@ + what);
    assert(is_blamed(c.t, c.file, e, frame.name, path));
    assert forall|i: int| 0 <= i < st1.errors.len() implies has_cause(
        c.t,
        c.file,
        #[trigger] st1.errors[i],
    ) by {
        if i < st.errors.len() {
            assert(st1.errors[i] == st.errors[i]);
        }
    }
}

proof fn lemma_args(
    c: ScopeV,
    st: StateV,
    frame: FrameV,
    path: Seq<int>,
    s: StmtV,
    n: int,
)
    requires
        all_have_causes(c, st),
        stands_in(c, frame, path, s),
        s is Call,
        0 <= n <= s->args.len(),
    ensures
        all_have_causes(
            c,
            check_args(c, st, frame.params, s->args.take(n), line_of(s)),
        ),
    decreases n,
{
    let q = s->args.take(n);
    if n > 0 {
        lemma_args(c, st, frame, path, s, n - 1);
        assert(q.drop_last() =~= s->args.take(n - 1));
        let st1 = check_args(c, st, frame.params, q.drop_last(), line_of(s));
        let x = s->args[n - 1];
        assert(q.last() == x);
        if !is_defined(c, frame.params, x) {
            assert(!is_formed(c.t, frame.params, s));
            lemma_fail(c, st1, frame, path, s, "undefined argument '"@ + x + "'"@);
        }
    }
}

proof fn lemma_locks(c: ScopeV, st: StateV, frame: FrameV, path: Seq<int>, s: StmtV, n: int)
    requires
        all_have_causes(c, st),
        stands_in(c, frame, path, s),
        s is Ordered,
        0 <= n <= s->locks.len(),
    ensures
        all_have_causes(c, check_locks(c, st, s->locks.take(n), line_of(s))),
    decreases n,
{
    let q = s->locks.take(n);
    if n > 0 {
        lemma_locks(c, st, frame, path, s, n - 1);
        assert(q.drop_last() =~= s->locks.take(n - 1));
        let st1 = check_locks(c, st, q.drop_last(), line_of(s));
        let x = s->locks[n - 1];
        assert(q.last() == x);
        if !c.t.lock_class.contains_key(x) {
            assert(!is_formed(c.t, frame.params, s)) by {
                let all = s->locks;
                assert(all[n - 1] == x);
            }
            lemma_fail(c, st1, frame, path, s, "undeclared lock '"@ + x + "'"@);
        }
    }
}

proof fn lemma_extern_errors(
    c: ScopeV,
    st: StateV,
    name: Name,
    line: nat,
    held: Set<Name>,
    masked: bool,
    acquires: Seq<Name>,
)
    ensures
        extern_acquires(c, st, name, line, held, masked, acquires).errors == st.errors,
    decreases acquires.len(),
{
    if acquires.len() > 0 {
        lemma_extern_errors(c, st, name, line, held, masked, acquires.drop_last());
    }
}

proof fn lemma_apply(
    c: ScopeV,
    st: StateV,
    frame: FrameV,
    path: Seq<int>,
    s: StmtV,
    name: Name,
    held: Set<Name>,
    masked: bool,
)
    requires
        all_have_causes(c, st),
        stands_in(c, frame, path, s),
        s is Call,
        s->args.len() > 0 ==> may_be_wrong(c.t, frame.params, s),
    ensures
        all_have_causes(c, apply_extern(c, st, name, s->args, line_of(s), held, masked)),
{
    if s->args.len() > 0 {
        lemma_fail(c, st, frame, path, s, "extern '"@ + name + "' takes no arguments"@);
    } else if c.t.externs.contains_key(name) {
        lemma_extern_errors(c, st, name, line_of(s), held, masked, c.t.externs[name]);
    }
}

proof fn lemma_apply_all(
    c: ScopeV,
    st: StateV,
    frame: FrameV,
    path: Seq<int>,
    s: StmtV,
    es: Seq<Name>,
    held: Set<Name>,
    masked: bool,
)
    requires
        all_have_causes(c, st),
        stands_in(c, frame, path, s),
        s is Call,
        may_be_wrong(c.t, frame.params, s),
    ensures
        all_have_causes(c, apply_all(c, st, es, s->args, line_of(s), held, masked)),
    decreases es.len(),
{
    if es.len() > 0 {
        let r = es.drop_last();
        lemma_apply_all(c, st, frame, path, s, r, held, masked);
        let st1 = apply_all(c, st, r, s->args, line_of(s), held, masked);
        lemma_apply(c, st1, frame, path, s, es.last(), held, masked);
    }
}

proof fn lemma_grown(st: StateV, fs: Seq<Name>, masked: bool, held: Set<Name>)
    ensures
        grow_all(st, fs, masked, held).errors == st.errors,
    decreases fs.len(),
{
    if fs.len() > 0 {
        lemma_grown(st, fs.drop_last(), masked, held);
    }
}

proof fn lemma_call(
    c: ScopeV,
    st: StateV,
    frame: FrameV,
    path: Seq<int>,
    s: StmtV,
    held: Set<Name>,
    masked: bool,
)
    requires
        all_have_causes(c, st),
        stands_in(c, frame, path, s),
        s is Call,
    ensures
        all_have_causes(
            c,
            call_stmt(c, st, frame, s->callee, s->args, line_of(s), held, masked),
        ),
{
    let callee = s->callee;
    let args = s->args;
    let line = line_of(s);
    assert(args.take(args.len() as int) =~= args);
    let st1 = check_args(c, st, frame.params, args, line);
    lemma_args(c, st, frame, path, s, args.len() as int);
    if frame.params.contains(callee) {
        let fs = sorted(flowing_funcs(c.t, frame.name, callee));
        let es = sorted(flowing_externs(c.t, frame.name, callee));
        let wrong = fs.len() == 1 && es.len() == 0 && c.t.funcs.contains_key(fs[0])
            && c.t.funcs[fs[0]].params.len() != args.len();
        let want = c.t.funcs[fs[0]].params.len();
        let st2 = if wrong {
            fail_arity(c, st1, line, fs[0], want, args.len())
        } else {
            st1
        };
        if wrong {
            lemma_fail(
                c,
                st1,
                frame,
                path,
                s,
                "'"@ + fs[0] + "' expects "@ + dec(want) + " argument(s), got "@ + dec(args.len()),
            );
        }
        lemma_grown(st2, fs, masked, held);
        let st3 = grow_all(st2, fs, masked, held);
        lemma_apply_all(c, st3, frame, path, s, es, held, masked);
    } else if c.t.funcs.contains_key(callee) {
        let want = c.t.funcs[callee].params.len();
        if args.len() != want {
            lemma_fail(
                c,
                st,
                frame,
                path,
                s,
                "'"@ + callee + "' expects "@ + dec(want) + " argument(s), got "@ + dec(
                    args.len(),
                ),
            );
        }
    } else if c.t.externs.contains_key(callee) {
        lemma_apply(c, st, frame, path, s, callee, held, masked);
    } else {
        lemma_fail(c, st, frame, path, s, "call to undefined function '"@ + callee + "'"@);
    }
}

proof fn lemma_stmt(c: ScopeV, st: StateV, frame: FrameV, path: Seq<int>, s: StmtV, p: PlaceV)
    requires
        all_have_causes(c, st),
        stands_in(c, frame, path, s),
    ensures
        all_have_causes(c, run_stmt(c, st, frame, s, p)),
    decreases s,
{
    match s {
        StmtV::With { lock, line, body } => {
            if c.t.lock_class.contains_key(lock) {
                let class = c.t.lock_class[lock];
                let idx = c.t.lock_index[lock];
                let st1 = emit(c, st, frame.name, line, counted_held(p, class, idx), class);
                let st2 = emit_preemption(c, st1, frame.name, line, class, p.masked);
                assert(st2.errors == st.errors);
                lemma_body(c, st2, frame, path, s, body, inside_with(p, class, idx));
            } else {
                lemma_fail(c, st, frame, path, s, "undeclared lock '"@ + lock + "'"@);
            }
        },
        StmtV::Ordered { locks, line, body } => {
            let st1 = check_locks(c, st, locks, line);
            assert(locks.take(locks.len() as int) =~= locks);
            lemma_locks(c, st, frame, path, s, locks.len() as int);
            let q = lock_classes(c.t, locks);
            if all_declared(c.t, locks) && locks.len() > 0 {
                if all_same(q) {
                    let st2 = emit(c, st1, frame.name, line, p.held, q[0]);
                    let st3 = emit_preemption(c, st2, frame.name, line, q[0], p.masked);
                    assert(st3.errors == st1.errors);
                    lemma_body(c, st3, frame, path, s, body, inside_ordered(c.t, p, locks));
                } else {
                    let i = choose|i: int| 0 <= i < q.len() && #[trigger] q[i] != q[0];
                    assert(c.t.lock_class[locks[i]] != c.t.lock_class[locks[0]]);
                    assert(!is_formed(c.t, frame.params, s));
                    lemma_fail(
                        c,
                        st1,
                        frame,
                        path,
                        s,
                        "ordered(...) requires all locks to share one class, found "@ + shown_list(
                            q,
                        ),
                    );
                }
            }
        },
        StmtV::Couple { class, line, body } => {
            if !is_class(c.t, class) {
                lemma_fail(c, st, frame, path, s, "unknown lock class '"@ + class + "' in couple"@);
            } else if p.held.contains(class) && !p.coupled.contains_key(class) {
                lemma_fail(
                    c,
                    st,
                    frame,
                    path,
                    s,
                    "couple of class '"@ + class
                        + "' while a lock of that class is already held outside a couple"@,
                );
            } else {
                let coupled = if p.coupled.contains_key(class) {
                    p.coupled
                } else {
                    p.coupled.insert(class, None)
                };
                lemma_body(
                    c,
                    st,
                    frame,
                    path,
                    s,
                    body,
                    PlaceV { coupled, depth: p.depth + 1, ..p },
                );
            }
        },
        StmtV::Mask { body } => {
            lemma_body(
                c,
                st,
                frame,
                path,
                s,
                body,
                PlaceV { masked: true, depth: p.depth + 1, ..p },
            );
        },
        StmtV::Call { callee, args, line } => {
            lemma_call(c, st, frame, path, s, p.held, p.masked);
        },
    }
}

proof fn lemma_body(
    c: ScopeV,
    st: StateV,
    frame: FrameV,
    path: Seq<int>,
    s: StmtV,
    block: Seq<StmtV>,
    p: PlaceV,
)
    requires
        all_have_causes(c, st),
        stands_in(c, frame, path, s),
        block == body_of(s),
    ensures
        all_have_causes(c, run_block(c, st, frame, block, p)),
    decreases block, block.len() + 1,
{
    lemma_upto(c, st, frame, path, s, block, block.len() as int, p);
}

proof fn lemma_upto(
    c: ScopeV,
    st: StateV,
    frame: FrameV,
    path: Seq<int>,
    s: StmtV,
    block: Seq<StmtV>,
    n: int,
    p: PlaceV,
)
    requires
        all_have_causes(c, st),
        stands_in(c, frame, path, s),
        block == body_of(s),
        0 <= n <= block.len(),
    ensures
        all_have_causes(c, run_upto(c, st, frame, block, n, p)),
    decreases block, n,
{
    if n > 0 {
        lemma_upto(c, st, frame, path, s, block, n - 1, p);
        lemma_deeper(c.t.funcs[frame.name].body, path, n - 1);
        lemma_stmt(
            c,
            run_upto(c, st, frame, block, n - 1, p),
            frame,
            path.push(n - 1),
            block[n - 1],
            p,
        );
    }
}

proof fn lemma_function(c: ScopeV, st: StateV, f: Name, n: int, p: PlaceV)
    requires
        all_have_causes(c, st),
        c.t.funcs.contains_key(f),
        0 <= n <= c.t.funcs[f].body.len(),
    ensures
        all_have_causes(
            c,
            run_upto(
                c,
                st,
                FrameV { name: f, params: c.t.funcs[f].params },
                c.t.funcs[f].body,
                n,
                p,
            ),
        ),
    decreases n,
{
    let frame = FrameV { name: f, params: c.t.funcs[f].params };
    let block = c.t.funcs[f].body;
    if n > 0 {
        lemma_function(c, st, f, n - 1, p);
        let path = seq![n - 1];
        assert(stmt_at(block, path) == Some(block[n - 1]));
        lemma_stmt(c, run_upto(c, st, frame, block, n - 1, p), frame, path, block[n - 1], p);
    }
}

proof fn lemma_turns(c: ScopeV, st: StateV, n: nat)
    requires
        all_have_causes(c, st),
    ensures
        all_have_causes(c, turns(c, st, n)),
    decreases n,
{
    if n > 0 {
        lemma_turns(c, st, (n - 1) as nat);
        let a = turns(c, st, (n - 1) as nat);
        if !(a.queue.len() == 0 || a.aborted) {
            let k = a.queue.last();
            let b = StateV { queue: a.queue.drop_last(), analyses: a.analyses + 1, ..a };
            if c.t.funcs.contains_key(k.0) {
                assert(all_have_causes(c, b));
                lemma_function(
                    c,
                    b,
                    k.0,
                    c.t.funcs[k.0].body.len() as int,
                    entry_place(b.entry, k),
                );
            }
        }
    }
}

proof fn lemma_seeded(c: ScopeV, st: StateV, fs: Seq<Name>)
    ensures
        seed_all(c, st, fs).errors == st.errors,
    decreases fs.len(),
{
    if fs.len() > 0 {
        lemma_seeded(c, st, fs.drop_last());
    }
}

proof fn lemma_causes(c: ScopeV)
    ensures
        all_have_causes(c, analyzed(c)),
{
    let start = seeded(c);
    lemma_seeded(c, no_state(c.t), sorted(c.t.funcs.dom()));
    assert(start.errors == c.t.errors);
    assert forall|i: int| 0 <= i < start.errors.len() implies has_cause(
        c.t,
        c.file,
        #[trigger] start.errors[i],
    ) by {
        assert(c.t.errors.contains(start.errors[i]));
    }
    lemma_turns(c, start, (MAX_ANALYSES + 1) as nat);
}

/// Every error of a program that is refused is one of its declarations, or bears
/// the site of a statement that may be at fault. No error comes twice.
pub proof fn errors_have_causes(items: Seq<ItemV>, file: Name, errors: Seq<Name>, i: int)
    requires
        lowering(items, file) == Err::<ProgramV, Seq<Name>>(errors),
        0 <= i < errors.len(),
    ensures
        has_cause(tables_of(items), file, errors[i]),
        errors.no_duplicates(),
{
    let c = ScopeV { t: tables_of(items), file };
    lemma_causes(c);
    let all = analyzed(c).errors;
    lemma_distinct(all);
    assert(errors.contains(errors[i]));
    assert(all.contains(errors[i]));
    let k = choose|k: int| 0 <= k < all.len() && all[k] == errors[i];
    assert(has_cause(c.t, c.file, all[k]));
}

/// Nothing is refused without a cause: a program is accepted if its declarations
/// are unambiguous and every statement is well formed, is no couple and calls no
/// parameter.
pub proof fn formed_programs_are_accepted(items: Seq<ItemV>, file: Name)
    requires
        no_clash(items),
        params_differ(items),
        externs_are_proper(items),
        forall|f: Name, path: Seq<int>|
            tables_of(items).funcs.contains_key(f) && (#[trigger] stmt_at(
                tables_of(items).funcs[f].body,
                path,
            )) is Some ==> !may_be_wrong(
                tables_of(items),
                tables_of(items).funcs[f].params,
                stmt_at(tables_of(items).funcs[f].body, path)->0,
            ),
    ensures
        lowering(items, file) is Ok,
{
    let c = ScopeV { t: tables_of(items), file };
    declarations_are_accepted_iff_unambiguous(items);
    lemma_causes(c);
    let all = analyzed(c).errors;
    if all.len() > 0 {
        assert(has_cause(c.t, c.file, all[0]));
        let (f, path) = choose|f: Name, path: Seq<int>| #[trigger]
            is_blamed(c.t, file, all[0], f, path);
        assert(stmt_at(c.t.funcs[f].body, path) is Some);
    }
}

}
