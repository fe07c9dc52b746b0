//! Lowers the syntax tree to lock-acquisition events with a **summary-based**
//! (may-be-held) interprocedural analysis.
//!
//! Memoizing on the *exact* held-set at each function entry would be
//! exponential in the number of lock classes. Instead the analysis propagates,
//! per function and interrupt mask, the **union** of every held-set the function
//! can be entered with: a monotone fixpoint over the call graph. This is *exact
//! at the edge level*: every ordering edge `h < C` is pairwise, so the set of
//! edges from a `with C` site is exactly `{ h < C : h may be held there }`, and
//! the union of edges over all entry contexts equals the edges computed from the
//! union of entry held-sets.
//!
//! The known imprecisions are all over-approximations, false positives rather
//! than missed deadlocks: (1) 0-CFA merges a callback's targets across call
//! sites; (2) the `couple` entry guard is conservative across (not within)
//! functions; (3) every function is treated as a potential concurrent task
//! entry running with interrupts enabled, so a helper called only inside
//! `mask { }` is still analyzed as an unmasked entry and may get a preemption
//! edge.

use vstd::prelude::*;

use crate::ast::{block_view, stmt_view, Ast, ItemV, Stmt, StmtV};
use crate::flow::{bindings, flowing_externs, flowing_funcs, flows, Flow, TargetV};
use crate::inherit::lemma_push_contains;
use crate::model::{event_views, opt_name, Event, EventV, Program, ProgramV};
use crate::namemap::NameMap;
use crate::ordset::{lemma_sorted, sorted, NameSet};
use crate::solver::distinct;
use crate::tables::{is_class, tables_of, Tables, TablesV};
use crate::text::{clone_names, dec, has_name, names, push_dec, str_eq, Name};
use crate::unicode::{push_list, shown_list};

verus! {

/// The deepest nesting of blocks that is analyzed.
pub const MAX_DEPTH: usize = 512;

/// Backstop on total function-body analyses. The may-held fixpoint is
/// polynomial and stays far below it in practice; it remains a sound
/// fail-closed cap.
pub const MAX_ANALYSES: usize = 2_000_000;

/// The synthetic class of the processor, which an interrupt handler holds.
pub open spec fn cpu() -> Name {
    "<cpu>"@
}

/// A function together with whether interrupts are masked in it.
pub type Key = (Name, bool);

/// What the analysis goes by.
pub struct ScopeV {
    pub t: TablesV,
    pub file: Name,
}

/// What the analysis has found so far.
pub struct StateV {
    pub events: Seq<EventV>,
    /// The union of every held-set a function can be entered with.
    pub entry: Map<Key, Set<Name>>,
    /// The functions to analyze, the next one last.
    pub queue: Seq<Key>,
    pub analyses: nat,
    pub errors: Seq<Name>,
    pub aborted: bool,
    pub incomplete: Option<Name>,
}

/// A place in a function: what is held there, which classes are coupled (with
/// the number of the lock taken last), and whether interrupts are masked.
pub struct PlaceV {
    pub held: Set<Name>,
    pub coupled: Map<Name, Option<usize>>,
    pub masked: bool,
    pub depth: nat,
}

/// The function a place is in.
pub struct FrameV {
    pub name: Name,
    pub params: Seq<Name>,
}

/// Some function is an interrupt handler.
pub open spec fn has_isr(t: TablesV) -> bool {
    exists|f: Name| #[trigger] t.funcs.contains_key(f) && t.funcs[f].is_isr
}

/// `{file}:{line}`.
pub open spec fn site_at(file: Name, line: nat) -> Name {
    file + ":"@ + dec(line)
}

/// Records an acquisition.
pub open spec fn emit(
    c: ScopeV,
    st: StateV,
    function: Name,
    line: nat,
    held: Set<Name>,
    class: Name,
) -> StateV {
    StateV {
        events: st.events.push(
            EventV {
                function,
                site: site_at(c.file, line),
                held: sorted(held),
                acquires: class,
            },
        ),
        ..st
    }
}

/// Records that an interrupt handler may take the processor while the lock is
/// held.
pub open spec fn emit_preemption(
    c: ScopeV,
    st: StateV,
    function: Name,
    line: nat,
    class: Name,
    masked: bool,
) -> StateV {
    if has_isr(c.t) && !masked {
        emit(c, st, function, line, Set::<Name>::empty().insert(class), cpu())
    } else {
        st
    }
}

/// Reports an error at a line.
pub open spec fn fail(c: ScopeV, st: StateV, line: nat, what: Name) -> StateV {
    StateV { errors: st.errors.push(site_at(c.file, line) + ": "@ + what), ..st }
}

/// What a function can be entered with.
pub open spec fn entry_of(entry: Map<Key, Set<Name>>, k: Key) -> Set<Name> {
    if entry.contains_key(k) {
        entry[k]
    } else {
        Set::empty()
    }
}

/// Puts a function at the end of the queue, unless it is in the queue.
pub open spec fn enqueue(st: StateV, k: Key) -> StateV {
    if st.queue.contains(k) {
        st
    } else {
        StateV { queue: st.queue.push(k), ..st }
    }
}

/// Adds `held` to what a function can be entered with. A function is queued if
/// anything was added, and also if it had never been entered in this way: a
/// function reached only with nothing held has to be analyzed too.
pub open spec fn grow_entry(st: StateV, k: Key, held: Set<Name>) -> StateV {
    let st2 = StateV {
        entry: st.entry.insert(k, entry_of(st.entry, k).union(held)),
        ..st
    };
    if st.entry.contains_key(k) && held.subset_of(st.entry[k]) {
        st2
    } else {
        enqueue(st2, k)
    }
}

/// Adds `held` to what each of the functions `fs` can be entered with.
pub open spec fn grow_all(st: StateV, fs: Seq<Name>, masked: bool, held: Set<Name>) -> StateV
    decreases fs.len(),
{
    if fs.len() == 0 {
        st
    } else {
        grow_entry(grow_all(st, fs.drop_last(), masked, held), (fs.last(), masked), held)
    }
}

/// The acquisitions that an extern makes: each of its classes, with those before
/// it held.
pub open spec fn extern_acquires(
    c: ScopeV,
    st: StateV,
    name: Name,
    line: nat,
    held: Set<Name>,
    masked: bool,
    acquires: Seq<Name>,
) -> StateV
    decreases acquires.len(),
{
    if acquires.len() == 0 {
        st
    } else {
        let before = acquires.drop_last();
        let st1 = extern_acquires(c, st, name, line, held, masked, before);
        emit_preemption(
            c,
            emit(c, st1, name, line, held.union(before.to_set()), acquires.last()),
            name,
            line,
            acquires.last(),
            masked,
        )
    }
}

/// A call of an extern.
pub open spec fn apply_extern(
    c: ScopeV,
    st: StateV,
    name: Name,
    args: Seq<Name>,
    line: nat,
    held: Set<Name>,
    masked: bool,
) -> StateV {
    if args.len() > 0 {
        fail(c, st, line, "extern '"@ + name + "' takes no arguments"@)
    } else if c.t.externs.contains_key(name) {
        extern_acquires(c, st, name, line, held, masked, c.t.externs[name])
    } else {
        st
    }
}

/// A call of each of the externs `es`.
pub open spec fn apply_all(
    c: ScopeV,
    st: StateV,
    es: Seq<Name>,
    args: Seq<Name>,
    line: nat,
    held: Set<Name>,
    masked: bool,
) -> StateV
    decreases es.len(),
{
    if es.len() == 0 {
        st
    } else {
        apply_extern(
            c,
            apply_all(c, st, es.drop_last(), args, line, held, masked),
            es.last(),
            args,
            line,
            held,
            masked,
        )
    }
}

/// The name is a parameter, a function or an extern.
pub open spec fn is_defined(c: ScopeV, params: Seq<Name>, name: Name) -> bool {
    params.contains(name) || c.t.funcs.contains_key(name) || c.t.externs.contains_key(name)
}

/// Reports the arguments that are not defined.
pub open spec fn check_args(
    c: ScopeV,
    st: StateV,
    params: Seq<Name>,
    args: Seq<Name>,
    line: nat,
) -> StateV
    decreases args.len(),
{
    if args.len() == 0 {
        st
    } else {
        let st1 = check_args(c, st, params, args.drop_last(), line);
        if is_defined(c, params, args.last()) {
            st1
        } else {
            fail(c, st1, line, "undefined argument '"@ + args.last() + "'"@)
        }
    }
}

/// Reports a call of `f`, which has `want` parameters, with `got` arguments.
pub open spec fn fail_arity(c: ScopeV, st: StateV, line: nat, f: Name, want: nat, got: nat) -> StateV {
    fail(
        c,
        st,
        line,
        "'"@ + f + "' expects "@ + dec(want) + " argument(s), got "@ + dec(got),
    )
}

/// A call of the parameter `callee`: everything that may flow to it may run. The
/// number of arguments is checked only where there is one candidate.
pub open spec fn call_param(
    c: ScopeV,
    st: StateV,
    frame: FrameV,
    callee: Name,
    args: Seq<Name>,
    line: nat,
    held: Set<Name>,
    masked: bool,
) -> StateV {
    let fs = sorted(flowing_funcs(c.t, frame.name, callee));
    let es = sorted(flowing_externs(c.t, frame.name, callee));
    let st1 = check_args(c, st, frame.params, args, line);
    let st2 = if fs.len() == 1 && es.len() == 0 && c.t.funcs.contains_key(fs[0])
        && c.t.funcs[fs[0]].params.len() != args.len() {
        fail_arity(c, st1, line, fs[0], c.t.funcs[fs[0]].params.len(), args.len())
    } else {
        st1
    };
    apply_all(c, grow_all(st2, fs, masked, held), es, args, line, held, masked)
}

/// A call statement: what is held there is propagated into every function that
/// may run, and externs acquire what they declare.
pub open spec fn call_stmt(
    c: ScopeV,
    st: StateV,
    frame: FrameV,
    callee: Name,
    args: Seq<Name>,
    line: nat,
    held: Set<Name>,
    masked: bool,
) -> StateV {
    if frame.params.contains(callee) {
        call_param(c, st, frame, callee, args, line, held, masked)
    } else if c.t.funcs.contains_key(callee) {
        let want = c.t.funcs[callee].params.len();
        if args.len() != want {
            fail_arity(c, st, line, callee, want, args.len())
        } else {
            grow_entry(check_args(c, st, frame.params, args, line), (callee, masked), held)
        }
    } else if c.t.externs.contains_key(callee) {
        apply_extern(c, st, callee, args, line, held, masked)
    } else {
        fail(c, st, line, "call to undefined function '"@ + callee + "'"@)
    }
}

/// Inside a couple, the lock number `idx` comes after the one taken last.
pub open spec fn monotone(coupled: Map<Name, Option<usize>>, class: Name, idx: usize) -> bool {
    coupled.contains_key(class) && match coupled[class] {
        None => true,
        Some(i) => idx > i,
    }
}

/// What counts as held where a lock is taken: inside a couple, the locks of its
/// own class that come before it do not.
pub open spec fn counted_held(p: PlaceV, class: Name, idx: usize) -> Set<Name> {
    if monotone(p.coupled, class, idx) {
        p.held.remove(class)
    } else {
        p.held
    }
}

/// The place inside a `with` of the lock number `idx`.
pub open spec fn inside_with(p: PlaceV, class: Name, idx: usize) -> PlaceV {
    PlaceV {
        held: p.held.insert(class),
        coupled: if p.coupled.contains_key(class) {
            p.coupled.insert(class, Some(idx))
        } else {
            p.coupled
        },
        depth: p.depth + 1,
        ..p
    }
}

/// The greatest of the numbers of the locks.
pub open spec fn last_index(t: TablesV, locks: Seq<Name>) -> usize
    decreases locks.len(),
{
    if locks.len() == 0 {
        0
    } else {
        let before = last_index(t, locks.drop_last());
        if before < t.lock_index[locks.last()] {
            t.lock_index[locks.last()]
        } else {
            before
        }
    }
}

/// The place inside a `with ordered` of the locks `locks`. Inside a couple the
/// descent has then come to the last of them.
pub open spec fn inside_ordered(t: TablesV, p: PlaceV, locks: Seq<Name>) -> PlaceV {
    let class = t.lock_class[locks[0]];
    PlaceV {
        held: p.held.insert(class),
        coupled: if p.coupled.contains_key(class) {
            p.coupled.insert(class, Some(last_index(t, locks)))
        } else {
            p.coupled
        },
        depth: p.depth + 1,
        ..p
    }
}

/// Reports the locks that are not declared.
pub open spec fn check_locks(c: ScopeV, st: StateV, locks: Seq<Name>, line: nat) -> StateV
    decreases locks.len(),
{
    if locks.len() == 0 {
        st
    } else {
        let st1 = check_locks(c, st, locks.drop_last(), line);
        if c.t.lock_class.contains_key(locks.last()) {
            st1
        } else {
            fail(c, st1, line, "undeclared lock '"@ + locks.last() + "'"@)
        }
    }
}

/// The locks are all declared.
pub open spec fn all_declared(t: TablesV, locks: Seq<Name>) -> bool {
    forall|i: int| 0 <= i < locks.len() ==> t.lock_class.contains_key(#[trigger] locks[i])
}

/// The classes of the locks.
pub open spec fn lock_classes(t: TablesV, locks: Seq<Name>) -> Seq<Name> {
    locks.map_values(|l: Name| t.lock_class[l])
}

/// All elements are the same.
pub open spec fn all_same(q: Seq<Name>) -> bool {
    forall|i: int| 0 <= i < q.len() ==> #[trigger] q[i] == q[0]
}

/// A block of statements.
pub open spec fn run_block(
    c: ScopeV,
    st: StateV,
    frame: FrameV,
    block: Seq<StmtV>,
    p: PlaceV,
) -> StateV
    decreases block, block.len() + 1,
{
    if st.aborted {
        st
    } else if p.depth > MAX_DEPTH {
        StateV {
            aborted: true,
            incomplete: Some("lock nesting deeper than 512 was not fully analyzed"@),
            ..st
        }
    } else {
        run_upto(c, st, frame, block, block.len() as int, p)
    }
}

/// The first `n` statements of a block.
pub open spec fn run_upto(
    c: ScopeV,
    st: StateV,
    frame: FrameV,
    block: Seq<StmtV>,
    n: int,
    p: PlaceV,
) -> StateV
    decreases block, n,
{
    if 0 < n <= block.len() {
        run_stmt(c, run_upto(c, st, frame, block, n - 1, p), frame, block[n - 1], p)
    } else {
        st
    }
}

/// One statement.
pub open spec fn run_stmt(
    c: ScopeV,
    st: StateV,
    frame: FrameV,
    s: StmtV,
    p: PlaceV,
) -> StateV
    decreases s,
{
    match s {
        StmtV::With { lock, line, body } => if !c.t.lock_class.contains_key(lock) {
            fail(c, st, line, "undeclared lock '"@ + lock + "'"@)
        } else {
            let class = c.t.lock_class[lock];
            let idx = c.t.lock_index[lock];
            let st1 = emit(c, st, frame.name, line, counted_held(p, class, idx), class);
            let st2 = emit_preemption(c, st1, frame.name, line, class, p.masked);
            run_block(c, st2, frame, body, inside_with(p, class, idx))
        },
        StmtV::Ordered { locks, line, body } => {
            let st1 = check_locks(c, st, locks, line);
            let q = lock_classes(c.t, locks);
            if !all_declared(c.t, locks) || locks.len() == 0 {
                st1
            } else if !all_same(q) {
                fail(
                    c,
                    st1,
                    line,
                    "ordered(...) requires all locks to share one class, found "@ + shown_list(q),
                )
            } else {
                let st2 = emit(c, st1, frame.name, line, p.held, q[0]);
                let st3 = emit_preemption(c, st2, frame.name, line, q[0], p.masked);
                run_block(
                    c,
                    st3,
                    frame,
                    body,
                    inside_ordered(c.t, p, locks),
                )
            }
        },
        StmtV::Couple { class, line, body } => if !is_class(c.t, class) {
            fail(c, st, line, "unknown lock class '"@ + class + "' in couple"@)
        } else if p.held.contains(class) && !p.coupled.contains_key(class) {
            fail(
                c,
                st,
                line,
                "couple of class '"@ + class
                    + "' while a lock of that class is already held outside a couple"@,
            )
        } else {
            let coupled = if p.coupled.contains_key(class) {
                p.coupled
            } else {
                p.coupled.insert(class, None)
            };
            run_block(c, st, frame, body, PlaceV { coupled, depth: p.depth + 1, ..p })
        },
        StmtV::Mask { body } => run_block(
            c,
            st,
            frame,
            body,
            PlaceV { masked: true, depth: p.depth + 1, ..p },
        ),
        StmtV::Call { callee, args, line } => call_stmt(
            c,
            st,
            frame,
            callee,
            args,
            line,
            p.held,
            p.masked,
        ),
    }
}

/// The place at which a function starts.
pub open spec fn entry_place(entry: Map<Key, Set<Name>>, k: Key) -> PlaceV {
    PlaceV { held: entry_of(entry, k), coupled: Map::empty(), masked: k.1, depth: 0 }
}

/// One analysis of a function with all that it may hold on entry.
pub open spec fn analyze_body(c: ScopeV, st: StateV, k: Key) -> StateV {
    let st1 = StateV { analyses: st.analyses + 1, ..st };
    if st1.analyses > MAX_ANALYSES {
        StateV {
            aborted: true,
            incomplete: Some(
                "the analysis exceeded 2000000 function analyses before converging (a scalability backstop, not a malformed program)"@,
            ),
            ..st1
        }
    } else if c.t.funcs.contains_key(k.0) {
        let f = c.t.funcs[k.0];
        run_block(
            c,
            st1,
            FrameV { name: k.0, params: f.params },
            f.body,
            entry_place(st1.entry, k),
        )
    } else {
        st1
    }
}

/// One turn: the function at the end of the queue is analyzed.
pub open spec fn turn(c: ScopeV, st: StateV) -> StateV {
    if st.queue.len() == 0 || st.aborted {
        st
    } else {
        analyze_body(c, StateV { queue: st.queue.drop_last(), ..st }, st.queue.last())
    }
}

/// The state after `n` turns.
pub open spec fn turns(c: ScopeV, st: StateV, n: nat) -> StateV
    decreases n,
{
    if n == 0 {
        st
    } else {
        turn(c, turns(c, st, (n - 1) as nat))
    }
}

/// Makes a function an entry point. An interrupt handler runs holding the
/// processor, with interrupts masked.
pub open spec fn seed(c: ScopeV, st: StateV, f: Name) -> StateV {
    let isr = c.t.funcs[f].is_isr;
    let k = (f, isr);
    let held = if isr {
        Set::<Name>::empty().insert(cpu())
    } else {
        Set::empty()
    };
    enqueue(
        StateV { entry: st.entry.insert(k, entry_of(st.entry, k).union(held)), ..st },
        k,
    )
}

/// Makes each of the functions `fs` an entry point.
pub open spec fn seed_all(c: ScopeV, st: StateV, fs: Seq<Name>) -> StateV
    decreases fs.len(),
{
    if fs.len() == 0 {
        st
    } else {
        seed(c, seed_all(c, st, fs.drop_last()), fs.last())
    }
}

/// The state before the analysis.
pub open spec fn no_state(t: TablesV) -> StateV {
    StateV {
        events: Seq::empty(),
        entry: Map::empty(),
        queue: Seq::empty(),
        analyses: 0,
        errors: t.errors,
        aborted: false,
        incomplete: None,
    }
}

/// The state with every function as an entry point.
pub open spec fn seeded(c: ScopeV) -> StateV {
    seed_all(c, no_state(c.t), sorted(c.t.funcs.dom()))
}

/// The state after the analysis. Every turn is one analysis, and the one beyond
/// the cap is the last.
pub open spec fn analyzed(c: ScopeV) -> StateV {
    turns(c, seeded(c), (MAX_ANALYSES + 1) as nat)
}

/// What lowering a program gives: the events, or the errors without repetition.
pub open spec fn lowering(items: Seq<ItemV>, file: Name) -> Result<ProgramV, Seq<Name>> {
    let t = tables_of(items);
    let st = analyzed(ScopeV { t, file });
    if st.errors.len() == 0 {
        Ok(
            ProgramV {
                name: file,
                events: st.events,
                class_instances: t.class_instances,
                incomplete: st.incomplete,
            },
        )
    } else {
        Err(distinct(st.errors))
    }
}

/// `a` is the beginning of `b`.
pub open spec fn prefix<T>(a: Seq<T>, b: Seq<T>) -> bool {
    a.len() <= b.len() && b.take(a.len() as int) == a
}

/// The analysis of a block leads from `a` to `b`: it only adds events, errors
/// and queued functions, only grows what functions can be entered with, and
/// queues every function for which that grew.
pub open spec fn extends(a: StateV, b: StateV) -> bool {
    &&& prefix(a.events, b.events)
    &&& prefix(a.errors, b.errors)
    &&& prefix(a.queue, b.queue)
    &&& a.analyses == b.analyses
    &&& forall|k: Key| #[trigger]
        a.entry.contains_key(k) ==> b.entry.contains_key(k) && a.entry[k].subset_of(b.entry[k])
    &&& forall|k: Key| #[trigger]
        b.entry.contains_key(k) ==> b.queue.contains(k) || (a.entry.contains_key(k) && a.entry[k]
            == b.entry[k])
    &&& a.aborted ==> b.aborted && b.incomplete == a.incomplete
    &&& !a.aborted && b.aborted ==> b.incomplete is Some
    &&& !b.aborted ==> b.incomplete == a.incomplete
}

proof fn lemma_prefix_trans<T>(a: Seq<T>, b: Seq<T>, c: Seq<T>)
    requires
        prefix(a, b),
        prefix(b, c),
    ensures
        prefix(a, c),
{
    assert(c.take(a.len() as int) =~= c.take(b.len() as int).take(a.len() as int));
}

proof fn lemma_prefix_contains<T>(a: Seq<T>, b: Seq<T>, x: T)
    requires
        prefix(a, b),
        a.contains(x),
    ensures
        b.contains(x),
{
    let i = choose|i: int| 0 <= i < a.len() && a[i] == x;
    assert(b.take(a.len() as int)[i] == x);
    assert(b[i] == x);
}

proof fn lemma_prefix_push<T>(a: Seq<T>, x: T)
    ensures
        prefix(a, a),
        prefix(a, a.push(x)),
{
    assert(a.take(a.len() as int) =~= a);
    assert(a.push(x).take(a.len() as int) =~= a);
}

pub proof fn lemma_extends_refl(a: StateV)
    ensures
        extends(a, a),
{
    assert(a.events.take(a.events.len() as int) =~= a.events);
    assert(a.errors.take(a.errors.len() as int) =~= a.errors);
    assert(a.queue.take(a.queue.len() as int) =~= a.queue);
}

pub proof fn lemma_extends_trans(a: StateV, b: StateV, c: StateV)
    requires
        extends(a, b),
        extends(b, c),
    ensures
        extends(a, c),
{
    lemma_prefix_trans(a.events, b.events, c.events);
    lemma_prefix_trans(a.errors, b.errors, c.errors);
    lemma_prefix_trans(a.queue, b.queue, c.queue);
    assert forall|k: Key| #[trigger] a.entry.contains_key(k) implies c.entry.contains_key(k)
        && a.entry[k].subset_of(c.entry[k]) by {
        assert(b.entry.contains_key(k));
    }
    assert forall|k: Key| #[trigger] c.entry.contains_key(k) implies c.queue.contains(k) || (
    a.entry.contains_key(k) && a.entry[k] == c.entry[k]) by {
        if !c.queue.contains(k) {
            assert(b.entry.contains_key(k) && b.entry[k] == c.entry[k]);
            if b.queue.contains(k) {
                lemma_prefix_contains(b.queue, c.queue, k);
            }
        }
    }
}

pub proof fn lemma_emit_extends(
    c: ScopeV,
    st: StateV,
    function: Name,
    line: nat,
    held: Set<Name>,
    class: Name,
)
    ensures
        extends(st, emit(c, st, function, line, held, class)),
{
    lemma_extends_refl(st);
    lemma_prefix_push(st.events, emit(c, st, function, line, held, class).events.last());
}

pub proof fn lemma_emit_preemption_extends(
    c: ScopeV,
    st: StateV,
    function: Name,
    line: nat,
    class: Name,
    masked: bool,
)
    ensures
        extends(st, emit_preemption(c, st, function, line, class, masked)),
{
    lemma_extends_refl(st);
    lemma_emit_extends(c, st, function, line, Set::<Name>::empty().insert(class), cpu());
}

proof fn lemma_fail_extends(c: ScopeV, st: StateV, line: nat, what: Name)
    ensures
        extends(st, fail(c, st, line, what)),
{
    lemma_extends_refl(st);
    lemma_prefix_push(st.errors, fail(c, st, line, what).errors.last());
}

pub proof fn lemma_grow_extends(st: StateV, k: Key, held: Set<Name>)
    ensures
        extends(st, grow_entry(st, k, held)),
{
    let st2 = grow_entry(st, k, held);
    lemma_extends_refl(st);
    lemma_prefix_push(st.queue, k);
    assert(st2.entry[k] == entry_of(st.entry, k).union(held));
    if st.entry.contains_key(k) && held.subset_of(st.entry[k]) {
        assert(st.entry[k].union(held) =~= st.entry[k]);
    } else {
        if !st.queue.contains(k) {
            assert(st2.queue[st.queue.len() as int] == k);
        }
        assert(st2.queue.contains(k));
    }
}

pub proof fn lemma_grow_all_extends(st: StateV, fs: Seq<Name>, masked: bool, held: Set<Name>)
    ensures
        extends(st, grow_all(st, fs, masked, held)),
    decreases fs.len(),
{
    lemma_extends_refl(st);
    if fs.len() > 0 {
        let st1 = grow_all(st, fs.drop_last(), masked, held);
        lemma_grow_all_extends(st, fs.drop_last(), masked, held);
        lemma_grow_extends(st1, (fs.last(), masked), held);
        lemma_extends_trans(st, st1, grow_all(st, fs, masked, held));
    }
}

proof fn lemma_extern_acquires_extends(
    c: ScopeV,
    st: StateV,
    name: Name,
    line: nat,
    held: Set<Name>,
    masked: bool,
    acquires: Seq<Name>,
)
    ensures
        extends(st, extern_acquires(c, st, name, line, held, masked, acquires)),
    decreases acquires.len(),
{
    lemma_extends_refl(st);
    if acquires.len() > 0 {
        let before = acquires.drop_last();
        let st1 = extern_acquires(c, st, name, line, held, masked, before);
        lemma_extern_acquires_extends(c, st, name, line, held, masked, before);
        let st2 = emit(c, st1, name, line, held.union(before.to_set()), acquires.last());
        lemma_emit_extends(c, st1, name, line, held.union(before.to_set()), acquires.last());
        lemma_emit_preemption_extends(c, st2, name, line, acquires.last(), masked);
        lemma_extends_trans(st, st1, st2);
        lemma_extends_trans(
            st,
            st2,
            extern_acquires(c, st, name, line, held, masked, acquires),
        );
    }
}

pub proof fn lemma_apply_extern_extends(
    c: ScopeV,
    st: StateV,
    name: Name,
    args: Seq<Name>,
    line: nat,
    held: Set<Name>,
    masked: bool,
)
    ensures
        extends(st, apply_extern(c, st, name, args, line, held, masked)),
{
    lemma_extends_refl(st);
    lemma_fail_extends(c, st, line, "extern '"@ + name + "' takes no arguments"@);
    lemma_extern_acquires_extends(c, st, name, line, held, masked, c.t.externs[name]);
}

pub proof fn lemma_apply_all_extends(
    c: ScopeV,
    st: StateV,
    es: Seq<Name>,
    args: Seq<Name>,
    line: nat,
    held: Set<Name>,
    masked: bool,
)
    ensures
        extends(st, apply_all(c, st, es, args, line, held, masked)),
    decreases es.len(),
{
    lemma_extends_refl(st);
    if es.len() > 0 {
        let st1 = apply_all(c, st, es.drop_last(), args, line, held, masked);
        lemma_apply_all_extends(c, st, es.drop_last(), args, line, held, masked);
        lemma_apply_extern_extends(c, st1, es.last(), args, line, held, masked);
        lemma_extends_trans(st, st1, apply_all(c, st, es, args, line, held, masked));
    }
}

proof fn lemma_check_args_extends(
    c: ScopeV,
    st: StateV,
    params: Seq<Name>,
    args: Seq<Name>,
    line: nat,
)
    ensures
        extends(st, check_args(c, st, params, args, line)),
    decreases args.len(),
{
    lemma_extends_refl(st);
    if args.len() > 0 {
        let st1 = check_args(c, st, params, args.drop_last(), line);
        lemma_check_args_extends(c, st, params, args.drop_last(), line);
        lemma_fail_extends(c, st1, line, "undefined argument '"@ + args.last() + "'"@);
        lemma_extends_trans(
            st,
            st1,
            fail(c, st1, line, "undefined argument '"@ + args.last() + "'"@),
        );
    }
}

proof fn lemma_check_locks_extends(c: ScopeV, st: StateV, locks: Seq<Name>, line: nat)
    ensures
        extends(st, check_locks(c, st, locks, line)),
    decreases locks.len(),
{
    lemma_extends_refl(st);
    if locks.len() > 0 {
        let st1 = check_locks(c, st, locks.drop_last(), line);
        lemma_check_locks_extends(c, st, locks.drop_last(), line);
        lemma_fail_extends(c, st1, line, "undeclared lock '"@ + locks.last() + "'"@);
        lemma_extends_trans(
            st,
            st1,
            fail(c, st1, line, "undeclared lock '"@ + locks.last() + "'"@),
        );
    }
}

pub proof fn lemma_call_extends(
    c: ScopeV,
    st: StateV,
    frame: FrameV,
    callee: Name,
    args: Seq<Name>,
    line: nat,
    held: Set<Name>,
    masked: bool,
)
    ensures
        extends(st, call_stmt(c, st, frame, callee, args, line, held, masked)),
{
    let st1 = check_args(c, st, frame.params, args, line);
    lemma_check_args_extends(c, st, frame.params, args, line);
    if frame.params.contains(callee) {
        let fs = sorted(flowing_funcs(c.t, frame.name, callee));
        let es = sorted(flowing_externs(c.t, frame.name, callee));
        let want = c.t.funcs[fs[0]].params.len();
        let failed = fail_arity(c, st1, line, fs[0], want, args.len());
        lemma_fail_extends(
            c,
            st1,
            line,
            "'"@ + fs[0] + "' expects "@ + dec(want) + " argument(s), got "@ + dec(args.len()),
        );
        lemma_extends_trans(st, st1, failed);
        let st2 = if fs.len() == 1 && es.len() == 0 && c.t.funcs.contains_key(fs[0])
            && c.t.funcs[fs[0]].params.len() != args.len() {
            failed
        } else {
            st1
        };
        let st3 = grow_all(st2, fs, masked, held);
        lemma_grow_all_extends(st2, fs, masked, held);
        lemma_extends_trans(st, st2, st3);
        lemma_apply_all_extends(c, st3, es, args, line, held, masked);
        lemma_extends_trans(st, st3, apply_all(c, st3, es, args, line, held, masked));
    } else if c.t.funcs.contains_key(callee) {
        let want = c.t.funcs[callee].params.len();
        lemma_fail_extends(
            c,
            st,
            line,
            "'"@ + callee + "' expects "@ + dec(want) + " argument(s), got "@ + dec(args.len()),
        );
        lemma_grow_extends(st1, (callee, masked), held);
        lemma_extends_trans(st, st1, grow_entry(st1, (callee, masked), held));
    } else {
        lemma_apply_extern_extends(c, st, callee, args, line, held, masked);
        lemma_fail_extends(c, st, line, "call to undefined function '"@ + callee + "'"@);
    }
}

/// The analysis of a block extends the state.
pub proof fn lemma_block_extends(
    c: ScopeV,
    st: StateV,
    frame: FrameV,
    block: Seq<StmtV>,
    p: PlaceV,
)
    ensures
        extends(st, run_block(c, st, frame, block, p)),
    decreases block, block.len() + 1,
{
    lemma_extends_refl(st);
    if !st.aborted && p.depth <= MAX_DEPTH {
        lemma_upto_extends(c, st, frame, block, block.len() as int, p);
    }
}

pub proof fn lemma_upto_extends(
    c: ScopeV,
    st: StateV,
    frame: FrameV,
    block: Seq<StmtV>,
    n: int,
    p: PlaceV,
)
    ensures
        extends(st, run_upto(c, st, frame, block, n, p)),
    decreases block, n,
{
    lemma_extends_refl(st);
    if 0 < n <= block.len() {
        let st1 = run_upto(c, st, frame, block, n - 1, p);
        lemma_upto_extends(c, st, frame, block, n - 1, p);
        lemma_stmt_extends(c, st1, frame, block[n - 1], p);
        lemma_extends_trans(st, st1, run_upto(c, st, frame, block, n, p));
    }
}

pub proof fn lemma_stmt_extends(c: ScopeV, st: StateV, frame: FrameV, s: StmtV, p: PlaceV)
    ensures
        extends(st, run_stmt(c, st, frame, s, p)),
    decreases s,
{
    let end = run_stmt(c, st, frame, s, p);
    match s {
        StmtV::With { lock, line, body } => {
            if !c.t.lock_class.contains_key(lock) {
                lemma_fail_extends(c, st, line, "undeclared lock '"@ + lock + "'"@);
            } else {
                let class = c.t.lock_class[lock];
                let idx = c.t.lock_index[lock];
                let st1 = emit(c, st, frame.name, line, counted_held(p, class, idx), class);
                let st2 = emit_preemption(c, st1, frame.name, line, class, p.masked);
                lemma_emit_extends(c, st, frame.name, line, counted_held(p, class, idx), class);
                lemma_emit_preemption_extends(c, st1, frame.name, line, class, p.masked);
                lemma_extends_trans(st, st1, st2);
                lemma_block_extends(c, st2, frame, body, inside_with(p, class, idx));
                lemma_extends_trans(st, st2, end);
            }
        },
        StmtV::Ordered { locks, line, body } => {
            let st1 = check_locks(c, st, locks, line);
            let q = lock_classes(c.t, locks);
            lemma_check_locks_extends(c, st, locks, line);
            if !all_declared(c.t, locks) || locks.len() == 0 {
            } else if !all_same(q) {
                lemma_fail_extends(
                    c,
                    st1,
                    line,
                    "ordered(...) requires all locks to share one class, found "@ + shown_list(q),
                );
                lemma_extends_trans(st, st1, end);
            } else {
                let st2 = emit(c, st1, frame.name, line, p.held, q[0]);
                let st3 = emit_preemption(c, st2, frame.name, line, q[0], p.masked);
                lemma_emit_extends(c, st1, frame.name, line, p.held, q[0]);
                lemma_emit_preemption_extends(c, st2, frame.name, line, q[0], p.masked);
                lemma_extends_trans(st, st1, st2);
                lemma_extends_trans(st, st2, st3);
                lemma_block_extends(
                    c,
                    st3,
                    frame,
                    body,
                    inside_ordered(c.t, p, locks),
                );
                lemma_extends_trans(st, st3, end);
            }
        },
        StmtV::Couple { class, line, body } => {
            lemma_fail_extends(c, st, line, "unknown lock class '"@ + class + "' in couple"@);
            lemma_fail_extends(
                c,
                st,
                line,
                "couple of class '"@ + class
                    + "' while a lock of that class is already held outside a couple"@,
            );
            let coupled = if p.coupled.contains_key(class) {
                p.coupled
            } else {
                p.coupled.insert(class, None)
            };
            lemma_block_extends(c, st, frame, body, PlaceV { coupled, depth: p.depth + 1, ..p });
        },
        StmtV::Mask { body } => {
            lemma_block_extends(
                c,
                st,
                frame,
                body,
                PlaceV { masked: true, depth: p.depth + 1, ..p },
            );
        },
        StmtV::Call { callee, args, line } => {
            lemma_call_extends(c, st, frame, callee, args, line, p.held, p.masked);
        },
    }
}

/// What the analysis goes by.
struct Scope<'a> {
    t: Tables<'a>,
    flow: Flow,
    isr: bool,
    file: String,
}

impl<'a> Scope<'a> {
    spec fn wf(&self) -> bool {
        &&& self.t.wf()
        &&& self.flow.wf(self.t.value())
        &&& forall|f: Name, p: Name, x: TargetV| #[trigger]
            bindings(self.flow.cells@).contains((f, p, x)) <==> flows(self.t.value(), f, p, x)
        &&& self.isr == has_isr(self.t.value())
    }

    spec fn value(&self) -> ScopeV {
        ScopeV { t: self.t.value(), file: self.file@ }
    }
}

/// What functions can be entered with.
spec fn entry_value(open: Map<Name, NameSet>, masked: Map<Name, NameSet>) -> Map<Key, Set<Name>> {
    Map::new(
        |k: Key|
            if k.1 {
                masked.contains_key(k.0)
            } else {
                open.contains_key(k.0)
            },
        |k: Key|
            if k.1 {
                masked[k.0]@
            } else {
                open[k.0]@
            },
    )
}

/// The functions in a queue.
spec fn queue_value(q: Seq<(String, bool)>) -> Seq<Key> {
    q.map_values(|k: (String, bool)| (k.0@, k.1))
}

/// What the analysis has found so far.
struct State {
    events: Vec<Event>,
    open: NameMap<NameSet>,
    masked: NameMap<NameSet>,
    queue: Vec<(String, bool)>,
    analyses: usize,
    errors: Vec<String>,
    aborted: bool,
    incomplete: Option<String>,
}

impl State {
    spec fn wf(&self) -> bool {
        &&& self.open.wf()
        &&& self.masked.wf()
        &&& forall|f: Name| #[trigger] self.open@.contains_key(f) ==> self.open@[f].wf()
        &&& forall|f: Name| #[trigger] self.masked@.contains_key(f) ==> self.masked@[f].wf()
    }

    spec fn value(&self) -> StateV {
        StateV {
            events: event_views(self.events@),
            entry: entry_value(self.open@, self.masked@),
            queue: queue_value(self.queue@),
            analyses: self.analyses as nat,
            errors: names(self.errors@),
            aborted: self.aborted,
            incomplete: opt_name(self.incomplete),
        }
    }

    fn emit(&mut self, c: &Scope, function: &str, line: usize, held: &NameSet, class: &str)
        requires
            old(self).wf(),
            held.wf(),
        ensures
            final(self).wf(),
            final(self).value() == emit(
                c.value(),
                old(self).value(),
                function@,
                line as nat,
                held@,
                class@,
            ),
    {
        let ghost before = event_views(self.events@);
        let e = Event {
            function: function.to_string(),
            site: site_text(c.file.as_str(), line),
            held: held.to_names(),
            acquires: class.to_string(),
        };
        self.events.push(e);
        assert(event_views(self.events@) =~= before.push(e@));
    }

    fn emit_preemption(&mut self, c: &Scope, function: &str, line: usize, class: &str, masked: bool)
        requires
            old(self).wf(),
            c.wf(),
        ensures
            final(self).wf(),
            final(self).value() == emit_preemption(
                c.value(),
                old(self).value(),
                function@,
                line as nat,
                class@,
                masked,
            ),
    {
        if c.isr && !masked {
            let one = NameSet::singleton(class);
            self.emit(c, function, line, &one, "<cpu>");
        }
    }

    /// Reports an error at a line.
    fn fail(&mut self, c: &Scope, line: usize, what: &str)
        requires
            old(self).wf(),
        ensures
            final(self).wf(),
            final(self).value() == fail(c.value(), old(self).value(), line as nat, what@),
    {
        let ghost before = names(self.errors@);
        let mut e = site_text(c.file.as_str(), line);
        e.append(": ");
        e.append(what);
        self.errors.push(e);
        assert(names(self.errors@) =~= before.push(e@));
    }

    /// Reports an error about a name at a line.
    fn fail_name(&mut self, c: &Scope, line: usize, head: &str, name: &str, tail: &str)
        requires
            old(self).wf(),
        ensures
            final(self).wf(),
            final(self).value() == fail(
                c.value(),
                old(self).value(),
                line as nat,
                head@ + name@ + tail@,
            ),
    {
        let mut what = head.to_string();
        what.append(name);
        what.append(tail);
        self.fail(c, line, what.as_str());
    }

    fn fail_arity(&mut self, c: &Scope, line: usize, f: &str, want: usize, got: usize)
        requires
            old(self).wf(),
        ensures
            final(self).wf(),
            final(self).value() == fail_arity(
                c.value(),
                old(self).value(),
                line as nat,
                f@,
                want as nat,
                got as nat,
            ),
    {
        let mut what = "'".to_string();
        what.append(f);
        what.append("' expects ");
        push_dec(&mut what, want);
        what.append(" argument(s), got ");
        push_dec(&mut what, got);
        self.fail(c, line, what.as_str());
    }

    fn enqueue(&mut self, name: &str, masked: bool)
        requires
            old(self).wf(),
        ensures
            final(self).wf(),
            final(self).value() == enqueue(old(self).value(), (name@, masked)),
    {
        let ghost q = queue_value(self.queue@);
        let mut i: usize = 0;
        while i < self.queue.len()
            invariant
                *self == *old(self),
                self.wf(),
                q == queue_value(self.queue@),
                i <= self.queue@.len(),
                forall|j: int| 0 <= j < i ==> q[j] != (name@, masked),
            decreases self.queue@.len() - i,
        {
            assert(q[i as int] == (self.queue@[i as int].0@, self.queue@[i as int].1));
            if self.queue[i].1 == masked && str_eq(self.queue[i].0.as_str(), name) {
                assert(q.contains((name@, masked)));
                return;
            }
            i = i + 1;
        }
        self.queue.push((name.to_string(), masked));
        assert(queue_value(self.queue@) =~= q.push((name@, masked)));
    }

    /// Sets what a function can be entered with.
    fn set_entry(&mut self, name: &str, masked: bool, held: NameSet)
        requires
            old(self).wf(),
            held.wf(),
        ensures
            final(self).wf(),
            final(self).value() == (StateV {
                entry: old(self).value().entry.insert((name@, masked), held@),
                ..old(self).value()
            }),
    {
        let ghost before = self.value();
        if masked {
            let _ = self.masked.insert(name.to_string(), held);
        } else {
            let _ = self.open.insert(name.to_string(), held);
        }
        assert(self.value().entry =~= before.entry.insert((name@, masked), held@));
    }

    /// What a function can be entered with, and whether it can be entered.
    fn entry(&self, name: &str, masked: bool) -> (r: (NameSet, bool))
        requires
            self.wf(),
        ensures
            r.0.wf(),
            r.0@ == entry_of(self.value().entry, (name@, masked)),
            r.1 == self.value().entry.contains_key((name@, masked)),
    {
        let found = if masked {
            self.masked.get(name)
        } else {
            self.open.get(name)
        };
        match found {
            Some(s) => (s.copy(), true),
            None => (NameSet::new(), false),
        }
    }

    fn grow_entry(&mut self, name: &str, masked: bool, held: &NameSet)
        requires
            old(self).wf(),
            held.wf(),
        ensures
            final(self).wf(),
            final(self).value() == grow_entry(old(self).value(), (name@, masked), held@),
    {
        let (cur, known) = self.entry(name, masked);
        let mut cur = cur;
        let added = cur.extend(held);
        self.set_entry(name, masked, cur);
        if added || !known {
            self.enqueue(name, masked);
        }
    }

    fn grow_all(&mut self, fs: &Vec<String>, masked: bool, held: &NameSet)
        requires
            old(self).wf(),
            held.wf(),
        ensures
            final(self).wf(),
            final(self).value() == grow_all(old(self).value(), names(fs@), masked, held@),
    {
        let ghost q = names(fs@);
        let mut i: usize = 0;
        assert(q.take(0) =~= Seq::empty());
        while i < fs.len()
            invariant
                q == names(fs@),
                i <= fs@.len(),
                held.wf(),
                self.wf(),
                self.value() == grow_all(old(self).value(), q.take(i as int), masked, held@),
            decreases fs@.len() - i,
        {
            assert(q.take(i + 1).drop_last() =~= q.take(i as int));
            assert(q.take(i + 1).last() == fs@[i as int]@);
            self.grow_entry(fs[i].as_str(), masked, held);
            i = i + 1;
        }
        assert(q.take(i as int) =~= q);
    }

    fn apply_extern(
        &mut self,
        c: &Scope,
        name: &str,
        args: &Vec<String>,
        line: usize,
        held: &NameSet,
        masked: bool,
    )
        requires
            old(self).wf(),
            c.wf(),
            held.wf(),
        ensures
            final(self).wf(),
            final(self).value() == apply_extern(
                c.value(),
                old(self).value(),
                name@,
                names(args@),
                line as nat,
                held@,
                masked,
            ),
    {
        if args.len() > 0 {
            self.fail_name(c, line, "extern '", name, "' takes no arguments");
            return;
        }
        match c.t.externs.get(name) {
            None => {},
            Some(acquires) => {
                let ghost q = names(acquires@);
                let mut h = held.copy();
                let mut i: usize = 0;
                assert(q.take(0) =~= Seq::empty());
                assert(h@ =~= held@.union(q.take(0).to_set()));
                while i < acquires.len()
                    invariant
                        q == names(acquires@),
                        i <= acquires@.len(),
                        c.wf(),
                        h.wf(),
                        h@ == held@.union(q.take(i as int).to_set()),
                        self.wf(),
                        self.value() == extern_acquires(
                            c.value(),
                            old(self).value(),
                            name@,
                            line as nat,
                            held@,
                            masked,
                            q.take(i as int),
                        ),
                    decreases acquires@.len() - i,
                {
                    let a = acquires[i].as_str();
                    proof {
                        let r = q.take(i as int);
                        assert(q.take(i + 1).drop_last() =~= r);
                        assert(q.take(i + 1).last() == a@);
                        assert(q.take(i + 1) =~= r.push(a@));
                        assert forall|x: Name| r.push(a@).contains(x) == (r.contains(x) || x
                            == a@) by {
                            lemma_push_contains(r, a@, x);
                        }
                        assert(held@.union(q.take(i + 1).to_set()) =~= held@.union(
                            r.to_set(),
                        ).insert(a@));
                    }
                    self.emit(c, name, line, &h, a);
                    self.emit_preemption(c, name, line, a, masked);
                    let _ = h.insert(a);
                    i = i + 1;
                }
                assert(q.take(i as int) =~= q);
            },
        }
    }

    fn apply_all(
        &mut self,
        c: &Scope,
        es: &Vec<String>,
        args: &Vec<String>,
        line: usize,
        held: &NameSet,
        masked: bool,
    )
        requires
            old(self).wf(),
            c.wf(),
            held.wf(),
        ensures
            final(self).wf(),
            final(self).value() == apply_all(
                c.value(),
                old(self).value(),
                names(es@),
                names(args@),
                line as nat,
                held@,
                masked,
            ),
    {
        let ghost q = names(es@);
        let mut i: usize = 0;
        assert(q.take(0) =~= Seq::empty());
        while i < es.len()
            invariant
                q == names(es@),
                i <= es@.len(),
                c.wf(),
                held.wf(),
                self.wf(),
                self.value() == apply_all(
                    c.value(),
                    old(self).value(),
                    q.take(i as int),
                    names(args@),
                    line as nat,
                    held@,
                    masked,
                ),
            decreases es@.len() - i,
        {
            assert(q.take(i + 1).drop_last() =~= q.take(i as int));
            assert(q.take(i + 1).last() == es@[i as int]@);
            self.apply_extern(c, es[i].as_str(), args, line, held, masked);
            i = i + 1;
        }
        assert(q.take(i as int) =~= q);
    }

    fn check_args(&mut self, c: &Scope, params: &Vec<String>, args: &Vec<String>, line: usize)
        requires
            old(self).wf(),
            c.wf(),
        ensures
            final(self).wf(),
            final(self).value() == check_args(
                c.value(),
                old(self).value(),
                names(params@),
                names(args@),
                line as nat,
            ),
    {
        let ghost q = names(args@);
        let mut i: usize = 0;
        assert(q.take(0) =~= Seq::empty());
        while i < args.len()
            invariant
                q == names(args@),
                i <= args@.len(),
                c.wf(),
                self.wf(),
                self.value() == check_args(
                    c.value(),
                    old(self).value(),
                    names(params@),
                    q.take(i as int),
                    line as nat,
                ),
            decreases args@.len() - i,
        {
            assert(q.take(i + 1).drop_last() =~= q.take(i as int));
            assert(q.take(i + 1).last() == args@[i as int]@);
            let a = args[i].as_str();
            if !has_name(params, a) && !c.t.funcs.contains_key(a) && !c.t.externs.contains_key(a) {
                self.fail_name(c, line, "undefined argument '", a, "'");
            }
            i = i + 1;
        }
        assert(q.take(i as int) =~= q);
    }

    fn call_param(
        &mut self,
        c: &Scope,
        curfn: &str,
        params: &Vec<String>,
        callee: &str,
        args: &Vec<String>,
        line: usize,
        held: &NameSet,
        masked: bool,
    )
        requires
            old(self).wf(),
            c.wf(),
            held.wf(),
        ensures
            final(self).wf(),
            final(self).value() == call_param(
                c.value(),
                old(self).value(),
                (FrameV { name: curfn@, params: names(params@) }),
                callee@,
                names(args@),
                line as nat,
                held@,
                masked,
            ),
    {
        let ts = c.flow.bound(&c.t, curfn, callee);
        proof {
            let t = c.t.value();
            assert(ts.funcs@ =~= flowing_funcs(t, curfn@, callee@)) by {
                assert forall|g: Name| ts.funcs@.contains(g) <==> flowing_funcs(
                    t,
                    curfn@,
                    callee@,
                ).contains(g) by {
                    assert(ts.has(TargetV::Func(g)) <==> bindings(c.flow.cells@).contains(
                        (curfn@, callee@, TargetV::Func(g)),
                    ));
                }
            }
            assert(ts.externs@ =~= flowing_externs(t, curfn@, callee@)) by {
                assert forall|g: Name| ts.externs@.contains(g) <==> flowing_externs(
                    t,
                    curfn@,
                    callee@,
                ).contains(g) by {
                    assert(ts.has(TargetV::Extern(g)) <==> bindings(c.flow.cells@).contains(
                        (curfn@, callee@, TargetV::Extern(g)),
                    ));
                }
            }
        }
        self.check_args(c, params, args, line);
        let fs = ts.funcs.to_names();
        let es = ts.externs.to_names();
        if fs.len() == 1 && es.len() == 0 {
            assert(names(fs@)[0] == fs@[0]@);
            let f = fs[0].as_str();
            match c.t.func(f) {
                Some(tf) => {
                    assert(c.t.value().funcs[f@].params.len() == tf.params@.len());
                    if tf.params.len() != args.len() {
                        self.fail_arity(c, line, f, tf.params.len(), args.len());
                    }
                },
                None => {},
            }
        }
        self.grow_all(&fs, masked, held);
        self.apply_all(c, &es, args, line, held, masked);
    }

    /// Resolves the targets of a call and propagates what is held there.
    fn propagate_call(
        &mut self,
        c: &Scope,
        curfn: &str,
        params: &Vec<String>,
        callee: &str,
        args: &Vec<String>,
        line: usize,
        held: &NameSet,
        masked: bool,
    )
        requires
            old(self).wf(),
            c.wf(),
            held.wf(),
        ensures
            final(self).wf(),
            final(self).value() == call_stmt(
                c.value(),
                old(self).value(),
                (FrameV { name: curfn@, params: names(params@) }),
                callee@,
                names(args@),
                line as nat,
                held@,
                masked,
            ),
    {
        if has_name(params, callee) {
            self.call_param(c, curfn, params, callee, args, line, held, masked);
            return;
        }
        match c.t.func(callee) {
            Some(f) => {
                let want: usize = f.params.len();
                assert(c.t.value().funcs[callee@].params.len() == want);
                if args.len() != want {
                    self.fail_arity(c, line, callee, want, args.len());
                    return;
                }
                self.check_args(c, params, args, line);
                self.grow_entry(callee, masked, held);
                return;
            },
            None => {},
        }
        if c.t.externs.contains_key(callee) {
            self.apply_extern(c, callee, args, line, held, masked);
            return;
        }
        self.fail_name(c, line, "call to undefined function '", callee, "'");
    }
}

/// `{file}:{line}`.
fn site_text(file: &str, line: usize) -> (r: String)
    ensures
        r@ == site_at(file@, line as nat),
{
    let mut r = file.to_string();
    r.append(":");
    push_dec(&mut r, line);
    r
}

/// Which classes are coupled, as a copy.
fn copy_coupled(m: &NameMap<Option<usize>>) -> (r: NameMap<Option<usize>>)
    requires
        m.wf(),
    ensures
        r.wf(),
        r@ == m@,
{
    let mut vals: Vec<Option<usize>> = Vec::new();
    let mut i: usize = 0;
    while i < m.vals.len()
        invariant
            i <= m.vals@.len(),
            vals@ == m.vals@.take(i as int),
        decreases m.vals@.len() - i,
    {
        vals.push(m.vals[i]);
        i = i + 1;
        assert(vals@ =~= m.vals@.take(i as int));
    }
    assert(vals@ =~= m.vals@);
    NameMap { keys: clone_names(&m.keys), vals }
}

impl State {
    /// Reports the locks that are not declared; the classes of the others.
    fn check_locks(&mut self, c: &Scope, locks: &Vec<String>, line: usize) -> (r: Option<
        Vec<String>,
    >)
        requires
            old(self).wf(),
            c.wf(),
        ensures
            final(self).wf(),
            final(self).value() == check_locks(
                c.value(),
                old(self).value(),
                names(locks@),
                line as nat,
            ),
            match r {
                Some(q) => all_declared(c.t.value(), names(locks@)) && names(q@) == lock_classes(
                    c.t.value(),
                    names(locks@),
                ),
                None => !all_declared(c.t.value(), names(locks@)),
            },
    {
        let ghost ls = names(locks@);
        let ghost t = c.t.value();
        let mut classes: Vec<String> = Vec::new();
        let mut ok: bool = true;
        let mut i: usize = 0;
        assert(ls.take(0) =~= Seq::empty());
        while i < locks.len()
            invariant
                ls == names(locks@),
                t == c.t.value(),
                i <= locks@.len(),
                c.wf(),
                self.wf(),
                self.value() == check_locks(
                    c.value(),
                    old(self).value(),
                    ls.take(i as int),
                    line as nat,
                ),
                ok ==> classes@.len() == i,
                ok ==> forall|j: int|
                    0 <= j < i ==> t.lock_class.contains_key(#[trigger] ls[j])
                        && classes@[j]@ == t.lock_class[ls[j]],
                !ok ==> !all_declared(t, ls),
            decreases locks@.len() - i,
        {
            let l = locks[i].as_str();
            assert(ls.take(i + 1).drop_last() =~= ls.take(i as int));
            assert(ls.take(i + 1).last() == l@);
            assert(ls[i as int] == l@);
            match c.t.lock_class.get(l) {
                Some(class) => classes.push(class.clone()),
                None => {
                    self.fail_name(c, line, "undeclared lock '", l, "'");
                    ok = false;
                },
            }
            i = i + 1;
        }
        assert(ls.take(i as int) =~= ls);
        if ok {
            assert(names(classes@) =~= lock_classes(t, ls));
            Some(classes)
        } else {
            None
        }
    }

    /// Analyzes a block.
    fn run_block(
        &mut self,
        c: &Scope,
        curfn: &str,
        params: &Vec<String>,
        stmts: &Vec<Stmt>,
        held: &NameSet,
        coupled: &NameMap<Option<usize>>,
        masked: bool,
        depth: usize,
    )
        requires
            old(self).wf(),
            c.wf(),
            held.wf(),
            coupled.wf(),
            depth <= MAX_DEPTH + 1,
        ensures
            final(self).wf(),
            final(self).value() == run_block(
                c.value(),
                old(self).value(),
                (FrameV { name: curfn@, params: names(params@) }),
                block_view(stmts@),
                (PlaceV { held: held@, coupled: coupled@, masked, depth: depth as nat }),
            ),
        decreases MAX_DEPTH + 1 - depth, 2nat,
    {
        if self.aborted {
            return;
        }
        if depth > MAX_DEPTH {
            self.aborted = true;
            self.incomplete = Some(
                "lock nesting deeper than 512 was not fully analyzed".to_string(),
            );
            return;
        }
        let ghost frame = FrameV { name: curfn@, params: names(params@) };
        let ghost b = block_view(stmts@);
        let ghost p = PlaceV { held: held@, coupled: coupled@, masked, depth: depth as nat };
        let mut i: usize = 0;
        while i < stmts.len()
            invariant
                b == block_view(stmts@),
                frame == (FrameV { name: curfn@, params: names(params@) }),
                p == (PlaceV { held: held@, coupled: coupled@, masked, depth: depth as nat }),
                i <= stmts@.len(),
                c.wf(),
                held.wf(),
                coupled.wf(),
                depth <= MAX_DEPTH,
                self.wf(),
                self.value() == run_upto(c.value(), old(self).value(), frame, b, i as int, p),
            decreases stmts@.len() - i,
        {
            assert(b[i as int] == stmt_view(stmts@[i as int]));
            self.run_stmt(c, curfn, params, &stmts[i], held, coupled, masked, depth);
            i = i + 1;
        }
    }

    /// Analyzes one statement.
    fn run_stmt(
        &mut self,
        c: &Scope,
        curfn: &str,
        params: &Vec<String>,
        s: &Stmt,
        held: &NameSet,
        coupled: &NameMap<Option<usize>>,
        masked: bool,
        depth: usize,
    )
        requires
            old(self).wf(),
            c.wf(),
            held.wf(),
            coupled.wf(),
            depth <= MAX_DEPTH,
        ensures
            final(self).wf(),
            final(self).value() == run_stmt(
                c.value(),
                old(self).value(),
                (FrameV { name: curfn@, params: names(params@) }),
                stmt_view(*s),
                (PlaceV { held: held@, coupled: coupled@, masked, depth: depth as nat }),
            ),
        decreases MAX_DEPTH + 1 - depth, 1nat,
    {
        match s {
            Stmt::With { lock, line, body } => {
                self.run_with(
                    c,
                    curfn,
                    params,
                    lock.as_str(),
                    *line,
                    body,
                    held,
                    coupled,
                    masked,
                    depth,
                );
            },
            Stmt::Ordered { locks, line, body } => {
                let ghost t = c.t.value();
                let ghost ls = names(locks@);
                match self.check_locks(c, locks, *line) {
                    None => {},
                    Some(classes) => {
                        let ghost q = lock_classes(t, ls);
                        if classes.len() == 0 {
                            return;
                        }
                        assert(q[0] == classes@[0]@);
                        if !same_names(&classes) {
                            let mut what =
                                "ordered(...) requires all locks to share one class, found ".to_string();
                            push_list(&mut what, &classes);
                            self.fail(c, *line, what.as_str());
                            return;
                        }
                        let class = classes[0].as_str();
                        self.emit(c, curfn, *line, held, class);
                        self.emit_preemption(c, curfn, *line, class, masked);
                        let mut next = held.copy();
                        let _ = next.insert(class);
                        assert(class@ == t.lock_class[ls[0]]);
                        let mut nc = copy_coupled(coupled);
                        if coupled.contains_key(class) {
                            let last: usize = last_declared(&c.t, locks);
                            let _ = nc.insert(class.to_string(), Some(last));
                        }
                        self.run_block(
                            c,
                            curfn,
                            params,
                            body,
                            &next,
                            &nc,
                            masked,
                            depth + 1,
                        );
                    },
                }
            },
            Stmt::Couple { class, line, body } => {
                if !c.t.has_class(class.as_str()) {
                    self.fail_name(
                        c,
                        *line,
                        "unknown lock class '",
                        class.as_str(),
                        "' in couple",
                    );
                    return;
                }
                if held.contains(class.as_str()) && !coupled.contains_key(class.as_str()) {
                    self.fail_name(
                        c,
                        *line,
                        "couple of class '",
                        class.as_str(),
                        "' while a lock of that class is already held outside a couple",
                    );
                    return;
                }
                let mut nc = copy_coupled(coupled);
                nc.or_insert(class.as_str(), None);
                self.run_block(c, curfn, params, body, held, &nc, masked, depth + 1);
            },
            Stmt::Mask { body } => {
                self.run_block(c, curfn, params, body, held, coupled, true, depth + 1);
            },
            Stmt::Call { callee, args, line } => {
                self.propagate_call(
                    c,
                    curfn,
                    params,
                    callee.as_str(),
                    args,
                    *line,
                    held,
                    masked,
                );
            },
        }
    }

    /// Analyzes a `with` statement.
    fn run_with(
        &mut self,
        c: &Scope,
        curfn: &str,
        params: &Vec<String>,
        lock: &str,
        line: usize,
        body: &Vec<Stmt>,
        held: &NameSet,
        coupled: &NameMap<Option<usize>>,
        masked: bool,
        depth: usize,
    )
        requires
            old(self).wf(),
            c.wf(),
            held.wf(),
            coupled.wf(),
            depth <= MAX_DEPTH,
        ensures
            final(self).wf(),
            final(self).value() == run_stmt(
                c.value(),
                old(self).value(),
                (FrameV { name: curfn@, params: names(params@) }),
                (StmtV::With { lock: lock@, line: line as nat, body: block_view(body@) }),
                (PlaceV { held: held@, coupled: coupled@, masked, depth: depth as nat }),
            ),
        decreases MAX_DEPTH + 1 - depth, 0nat,
    {
        let class = match c.t.lock_class.get(lock) {
            Some(k) => k.as_str(),
            None => {
                self.fail_name(c, line, "undeclared lock '", lock, "'");
                return;
            },
        };
        let idx: usize = match c.t.lock_index.get(lock) {
            Some(k) => *k,
            None => 0,
        };
        assert(c.t.lock_index@.contains_key(lock@));
        let mut next = held.copy();
        let _ = next.insert(class);
        match coupled.get(class) {
            Some(cur) => {
                let monotone = match cur {
                    None => true,
                    Some(k) => idx > *k,
                };
                if monotone {
                    let mut counted = held.copy();
                    counted.remove(class);
                    self.emit(c, curfn, line, &counted, class);
                } else {
                    self.emit(c, curfn, line, held, class);
                }
                self.emit_preemption(c, curfn, line, class, masked);
                let mut nc = copy_coupled(coupled);
                let _ = nc.insert(class.to_string(), Some(idx));
                self.run_block(c, curfn, params, body, &next, &nc, masked, depth + 1);
            },
            None => {
                self.emit(c, curfn, line, held, class);
                self.emit_preemption(c, curfn, line, class, masked);
                self.run_block(c, curfn, params, body, &next, coupled, masked, depth + 1);
            },
        }
    }
}

/// The greatest of the numbers of the locks.
fn last_declared(t: &Tables, locks: &Vec<String>) -> (r: usize)
    requires
        t.wf(),
        all_declared(t.value(), names(locks@)),
    ensures
        r == last_index(t.value(), names(locks@)),
{
    let ghost ls = names(locks@);
    let mut last: usize = 0;
    let mut i: usize = 0;
    assert(ls.take(0) =~= Seq::empty());
    while i < locks.len()
        invariant
            t.wf(),
            ls == names(locks@),
            all_declared(t.value(), ls),
            i <= locks@.len(),
            last == last_index(t.value(), ls.take(i as int)),
        decreases locks@.len() - i,
    {
        assert(ls.take(i + 1).drop_last() =~= ls.take(i as int));
        assert(ls[i as int] == locks@[i as int]@);
        assert(t.value().lock_class.contains_key(ls[i as int]));
        assert(t.lock_class@.contains_key(ls[i as int]));
        assert(t.lock_index@.contains_key(ls[i as int]));
        match t.lock_index.get(locks[i].as_str()) {
            Some(k) => {
                if last < *k {
                    last = *k;
                }
            },
            None => {},
        }
        i = i + 1;
    }
    assert(ls.take(i as int) =~= ls);
    last
}

/// Whether all strings are the same.
pub fn same_names(v: &Vec<String>) -> (r: bool)
    ensures
        r == all_same(names(v@)),
{
    let ghost q = names(v@);
    let mut i: usize = 0;
    while i < v.len()
        invariant
            q == names(v@),
            i <= v@.len(),
            forall|j: int| 0 <= j < i ==> #[trigger] q[j] == q[0],
        decreases v@.len() - i,
    {
        assert(q[i as int] == v@[i as int]@);
        assert(q[0] == v@[0]@);
        if !str_eq(v[i].as_str(), v[0].as_str()) {
            return false;
        }
        i = i + 1;
    }
    true
}

impl State {
    /// Analyzes a function with all that it may hold on entry.
    fn analyze_body(&mut self, c: &Scope, name: &str, masked: bool)
        requires
            old(self).wf(),
            c.wf(),
            old(self).analyses <= MAX_ANALYSES,
        ensures
            final(self).wf(),
            final(self).value() == analyze_body(c.value(), old(self).value(), (name@, masked)),
    {
        self.analyses = self.analyses + 1;
        if self.analyses > MAX_ANALYSES {
            self.aborted = true;
            self.incomplete = Some(
                "the analysis exceeded 2000000 function analyses before converging (a scalability backstop, not a malformed program)".to_string(),
            );
            return;
        }
        match c.t.func(name) {
            None => {},
            Some(f) => {
                let (held, _) = self.entry(name, masked);
                let coupled: NameMap<Option<usize>> = NameMap::new();
                self.run_block(c, name, &f.params, &f.body, &held, &coupled, masked, 0);
            },
        }
    }

    /// Makes a function an entry point.
    fn seed(&mut self, c: &Scope, name: &str)
        requires
            old(self).wf(),
            c.wf(),
            c.t.value().funcs.contains_key(name@),
        ensures
            final(self).wf(),
            final(self).value() == seed(c.value(), old(self).value(), name@),
    {
        match c.t.func(name) {
            None => {},
            Some(f) => {
                let isr = f.is_isr;
                let (cur, _) = self.entry(name, isr);
                let mut cur = cur;
                let ghost was = cur@;
                if isr {
                    let _ = cur.insert("<cpu>");
                    assert(cur@ =~= was.union(Set::<Name>::empty().insert(cpu())));
                } else {
                    assert(cur@ =~= was.union(Set::empty()));
                }
                self.set_entry(name, isr, cur);
                self.enqueue(name, isr);
            },
        }
    }

    /// Makes every function an entry point.
    fn seed_all(&mut self, c: &Scope)
        requires
            old(self).wf(),
            c.wf(),
        ensures
            final(self).wf(),
            final(self).value() == seed_all(
                c.value(),
                old(self).value(),
                sorted(c.t.value().funcs.dom()),
            ),
            final(self).analyses == old(self).analyses,
    {
        let all = func_names(&c.t);
        let ghost q = names(all@);
        let mut i: usize = 0;
        assert(q.take(0) =~= Seq::empty());
        while i < all.len()
            invariant
                q == names(all@),
                forall|j: int|
                    0 <= j < q.len() ==> c.t.value().funcs.contains_key(#[trigger] q[j]),
                i <= all@.len(),
                c.wf(),
                self.wf(),
                self.value() == seed_all(c.value(), old(self).value(), q.take(i as int)),
                self.value().analyses == old(self).value().analyses,
            decreases all@.len() - i,
        {
            assert(q.take(i + 1).drop_last() =~= q.take(i as int));
            assert(q[i as int] == all@[i as int]@);
            self.seed(c, all[i].as_str());
            i = i + 1;
        }
        assert(q.take(i as int) =~= q);
    }

    /// Analyzes functions until none is queued.
    fn run(&mut self, c: &Scope)
        requires
            old(self).wf(),
            c.wf(),
            old(self).analyses == 0,
        ensures
            final(self).wf(),
            final(self).value() == turns(
                c.value(),
                old(self).value(),
                (MAX_ANALYSES + 1) as nat,
            ),
    {
        let ghost start = self.value();
        let ghost mut n: nat = 0;
        while self.queue.len() > 0 && !self.aborted
            invariant
                c.wf(),
                self.wf(),
                start == old(self).value(),
                self.value() == turns(c.value(), start, n),
                self.analyses == n,
                n <= MAX_ANALYSES + 1,
                n > MAX_ANALYSES ==> self.aborted,
            decreases MAX_ANALYSES + 1 - n,
        {
            let ghost st = self.value();
            let (name, masked) = match self.queue.pop() {
                Some(k) => k,
                None => {
                    return;
                },
            };
            proof {
                assert(queue_value(self.queue@) =~= st.queue.drop_last());
                assert(st.queue.last() == (name@, masked));
                let f = c.value().t.funcs[name@];
                let st1 = StateV { analyses: st.analyses + 1, queue: st.queue.drop_last(), ..st };
                lemma_block_extends(
                    c.value(),
                    st1,
                    FrameV { name: name@, params: f.params },
                    f.body,
                    entry_place(st1.entry, (name@, masked)),
                );
            }
            self.analyze_body(c, name.as_str(), masked);
            proof {
                n = n + 1;
                assert(self.value() == turn(c.value(), st));
                assert(self.value().analyses == st.analyses + 1);
            }
        }
        proof {
            lemma_turns_stay(c.value(), start, n, (MAX_ANALYSES + 1) as nat);
        }
    }
}

proof fn lemma_turns_stay(c: ScopeV, st: StateV, n: nat, m: nat)
    requires
        turns(c, st, n).queue.len() == 0 || turns(c, st, n).aborted,
        n <= m,
    ensures
        turns(c, st, m) == turns(c, st, n),
    decreases m - n,
{
    if n < m {
        lemma_turns_stay(c, st, n, (m - 1) as nat);
    }
}

/// The names of the functions, in ascending order.
fn func_names(t: &Tables) -> (r: Vec<String>)
    requires
        t.wf(),
    ensures
        names(r@) == sorted(t.value().funcs.dom()),
        forall|j: int|
            0 <= j < r@.len() ==> t.value().funcs.contains_key(#[trigger] names(r@)[j]),
{
    let ghost q = t.funcs.key_seq();
    let mut set = NameSet::new();
    let mut i: usize = 0;
    assert(set@ =~= q.take(0).to_set());
    while i < t.funcs.keys.len()
        invariant
            q == t.funcs.key_seq(),
            i <= q.len(),
            set.wf(),
            set@ == q.take(i as int).to_set(),
        decreases q.len() - i,
    {
        let _ = set.insert(t.funcs.keys[i].as_str());
        proof {
            let r = q.take(i as int);
            let x = q[i as int];
            assert(q.take(i + 1) =~= r.push(x));
            assert forall|y: Name| r.push(x).contains(y) == (r.contains(y) || x == y) by {
                lemma_push_contains(r, x, y);
            }
            assert(set@ =~= q.take(i + 1).to_set());
        }
        i = i + 1;
    }
    assert(q.take(i as int) =~= q);
    assert(set@ =~= t.value().funcs.dom());
    let r = set.to_names();
    proof {
        lemma_sorted(names(set.items@));
        assert forall|j: int| 0 <= j < r@.len() implies t.value().funcs.contains_key(
            #[trigger] names(r@)[j],
        ) by {
            assert(names(set.items@).contains(names(r@)[j]));
            assert(set@.contains(names(r@)[j]));
        }
    }
    r
}

/// Whether some function is an interrupt handler.
fn any_isr(t: &Tables) -> (r: bool)
    requires
        t.wf(),
    ensures
        r == has_isr(t.value()),
{
    let ghost q = t.funcs.key_seq();
    let ghost v = t.value();
    let mut i: usize = 0;
    while i < t.funcs.keys.len()
        invariant
            t.wf(),
            v == t.value(),
            q == t.funcs.key_seq(),
            i <= q.len(),
            forall|j: int| 0 <= j < i ==> !v.funcs[#[trigger] q[j]].is_isr,
        decreases q.len() - i,
    {
        proof {
            t.funcs.lemma_at(i as int);
        }
        match t.func(t.funcs.keys[i].as_str()) {
            Some(f) => {
                assert(v.funcs.contains_key(q[i as int]));
                if f.is_isr {
                    return true;
                }
            },
            None => {},
        }
        i = i + 1;
    }
    proof {
        if has_isr(v) {
            let f = choose|f: Name| #[trigger] v.funcs.contains_key(f) && v.funcs[f].is_isr;
            assert(q.contains(f));
            let j = choose|j: int| 0 <= j < q.len() && q[j] == f;
            assert(!v.funcs[q[j]].is_isr);
        }
    }
    false
}

/// The strings without those that repeat an earlier one.
fn dedup(v: &Vec<String>) -> (r: Vec<String>)
    ensures
        names(r@) == distinct(names(v@)),
{
    let ghost q = names(v@);
    let mut out: Vec<String> = Vec::new();
    let mut i: usize = 0;
    assert(q.take(0) =~= Seq::empty());
    assert(names(out@) =~= Seq::empty());
    while i < v.len()
        invariant
            q == names(v@),
            i <= v@.len(),
            names(out@) == distinct(q.take(i as int)),
        decreases v@.len() - i,
    {
        assert(q.take(i + 1).drop_last() =~= q.take(i as int));
        assert(q[i as int] == v@[i as int]@);
        if !has_name(&out, v[i].as_str()) {
            let ghost before = names(out@);
            out.push(v[i].clone());
            assert(names(out@) =~= before.push(q[i as int]));
        }
        i = i + 1;
    }
    assert(q.take(i as int) =~= q);
    out
}

/// Lowers a program to its lock-acquisition events.
pub fn lower(ast: &Ast, file: &str) -> (r: Result<Program, Vec<String>>)
    ensures
        match r {
            Ok(p) => p.wf() && lowering(ast@, file@) == Ok::<ProgramV, Seq<Name>>(p@),
            Err(e) => lowering(ast@, file@) == Err::<ProgramV, Seq<Name>>(names(e@)),
        },
{
    let t = Tables::collect(ast);
    let flow = Flow::compute(&t);
    let isr = any_isr(&t);
    let errors = clone_names(&t.errors);
    let c = Scope { t, flow, isr, file: file.to_string() };
    let mut st = State {
        events: Vec::new(),
        open: NameMap::new(),
        masked: NameMap::new(),
        queue: Vec::new(),
        analyses: 0,
        errors,
        aborted: false,
        incomplete: None,
    };
    proof {
        assert(event_views(st.events@) =~= Seq::empty());
        assert(entry_value(st.open@, st.masked@) =~= Map::empty());
        assert(queue_value(st.queue@) =~= Seq::empty());
        assert(st.value() == no_state(c.t.value()));
    }
    st.seed_all(&c);
    st.run(&c);
    let ghost end = analyzed(c.value());
    assert(st.value() == end);
    assert(end.errors.len() == st.errors@.len());
    if st.errors.len() == 0 {
        Ok(
            Program {
                name: file.to_string(),
                events: st.events,
                class_instances: c.t.class_instances,
                incomplete: st.incomplete,
            },
        )
    } else {
        Err(dedup(&st.errors))
    }
}

}
