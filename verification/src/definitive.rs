//! The analysis comes to an end in time.
//!
//! Held-sets are summarized as one growing union for each function and mask, so a
//! function is analyzed again only after its summary has grown. There are two
//! summaries for each function, and none can grow more often than there are
//! classes: the number of analyses is bounded by the size of the program.

use vstd::prelude::*;

use crate::ast::{ItemV, StmtV};
use crate::flow::{flowing_externs, flowing_funcs, flows_by, lemma_flow_known, TargetV};
use crate::frontend::{
    all_declared, all_same, apply_all, call_stmt, check_args, check_locks, counted_held, cpu, emit,
    emit_preemption, entry_of, entry_place, extern_acquires, fail_arity, grow_all, grow_entry,
    inside_ordered, inside_with, lemma_block_extends, lock_classes, lowering, no_state, run_block,
    run_stmt, run_upto, seed_all, seeded, turn, turns, FrameV, Key, PlaceV, ScopeV, StateV,
    MAX_ANALYSES, MAX_DEPTH,
};
use crate::grammar::{lemma_item_end, lemma_list_end, lemma_pieces, lemma_stmt_end};
use crate::model::ProgramV;
use crate::ordset::{lemma_sorted_set, sorted};
use crate::parser::{
    is_at, is_word, lexed, parse_block, parse_fn, parse_foreign, parse_item, parse_items,
    parse_list, parse_lock, parse_stmt, parse_stmts, parsed, TkV, TokenV,
};
use crate::soundness::lemma_sorted_targets;
use crate::tables::{declared, lemma_tables_finite, tables_of, TablesV};
use crate::text::{lemma_lex_irreflexive, Name};

verus! {

/// The blocks inside the statement are nested at most `room` deep.
pub open spec fn fits_in(s: StmtV, room: int) -> bool
    decreases s,
{
    match s {
        StmtV::With { lock, line, body } => room > 0 && fits(body, body.len() as int, room - 1),
        StmtV::Ordered { locks, line, body } => room > 0 && fits(
            body,
            body.len() as int,
            room - 1,
        ),
        StmtV::Couple { class, line, body } => room > 0 && fits(
            body,
            body.len() as int,
            room - 1,
        ),
        StmtV::Mask { body } => room > 0 && fits(body, body.len() as int, room - 1),
        StmtV::Call { callee, args, line } => true,
    }
}

/// The blocks inside the first `n` statements are nested at most `room` deep.
pub open spec fn fits(block: Seq<StmtV>, n: int, room: int) -> bool
    decreases block, n,
{
    if 0 < n <= block.len() {
        fits(block, n - 1, room) && fits_in(block[n - 1], room)
    } else {
        true
    }
}

/// No function nests blocks too deep for the analysis.
pub open spec fn program_fits(t: TablesV) -> bool {
    forall|f: Name| #[trigger]
        t.funcs.contains_key(f) ==> fits(
            t.funcs[f].body,
            t.funcs[f].body.len() as int,
            512,
        )
}

/// Everything that can ever be held on entry: the declared classes and the
/// processor.
pub open spec fn holdable(t: TablesV) -> Set<Name> {
    t.class_instances.dom().insert(cpu())
}

/// Every lock has a declared class, of which there are finitely many.
spec fn classes_known(t: TablesV) -> bool {
    &&& t.class_instances.dom().finite()
    &&& forall|l: Name| #[trigger]
        t.lock_class.contains_key(l) ==> t.class_instances.contains_key(t.lock_class[l])
}

proof fn lemma_classes_known(items: Seq<ItemV>)
    ensures
        classes_known(declared(items)),
    decreases items.len(),
{
    if items.len() > 0 {
        let t = declared(items.drop_last());
        lemma_classes_known(items.drop_last());
        match items.last() {
            ItemV::Lock { name, class } => {
                let end = declared(items);
                assert(end.class_instances.dom() =~= t.class_instances.dom().insert(class));
                assert forall|l: Name| #[trigger]
                    end.lock_class.contains_key(l) implies end.class_instances.contains_key(
                    end.lock_class[l],
                ) by {
                    if l != name {
                        assert(t.lock_class.contains_key(l));
                    }
                }
            },
            _ => {},
        }
    }
}

/// How often the summary of `k` can still grow.
spec fn room_at(u: Set<Name>, entry: Map<Key, Set<Name>>, k: Key) -> int {
    if entry.contains_key(k) {
        u.len() - entry[k].len()
    } else {
        (u.len() + 1) as int
    }
}

/// How often the summaries of the functions `fs` can still grow.
spec fn room(u: Set<Name>, entry: Map<Key, Set<Name>>, fs: Seq<Name>) -> int
    decreases fs.len(),
{
    if fs.len() == 0 {
        0
    } else {
        room(u, entry, fs.drop_last()) + room_at(u, entry, (fs.last(), false)) + room_at(
            u,
            entry,
            (fs.last(), true),
        )
    }
}

/// The summaries are of declared functions and hold what can be held.
spec fn bounded(t: TablesV, entry: Map<Key, Set<Name>>) -> bool {
    forall|k: Key| #[trigger]
        entry.contains_key(k) ==> t.funcs.contains_key(k.0) && entry[k].subset_of(holdable(t))
}

/// How many analyses can still come.
spec fn cost(t: TablesV, st: StateV) -> int {
    st.queue.len() + room(holdable(t), st.entry, sorted(t.funcs.dom()))
}

proof fn lemma_room_not_negative(t: TablesV, entry: Map<Key, Set<Name>>, fs: Seq<Name>)
    requires
        classes_known(t),
        bounded(t, entry),
    ensures
        room(holdable(t), entry, fs) >= 0,
    decreases fs.len(),
{
    if fs.len() > 0 {
        let u = holdable(t);
        lemma_room_not_negative(t, entry, fs.drop_last());
        let (j, k) = ((fs.last(), false), (fs.last(), true));
        if entry.contains_key(j) {
            vstd::set_lib::lemma_len_subset(entry[j], u);
        }
        if entry.contains_key(k) {
            vstd::set_lib::lemma_len_subset(entry[k], u);
        }
    }
}

proof fn lemma_room_shrinks(
    u: Set<Name>,
    entry: Map<Key, Set<Name>>,
    k: Key,
    held: Set<Name>,
    fs: Seq<Name>,
)
    requires
        room_at(u, entry.insert(k, held), k) < room_at(u, entry, k),
    ensures
        room(u, entry.insert(k, held), fs) <= room(u, entry, fs),
        fs.contains(k.0) ==> room(u, entry.insert(k, held), fs) < room(u, entry, fs),
    decreases fs.len(),
{
    if fs.len() > 0 {
        let r = fs.drop_last();
        lemma_room_shrinks(u, entry, k, held, r);
        if fs.last() == k.0 {
            assert(k == (fs.last(), false) || k == (fs.last(), true));
        } else if fs.contains(k.0) {
            let i = choose|i: int| 0 <= i < fs.len() && fs[i] == k.0;
            assert(r[i] == k.0);
        }
    }
}

proof fn lemma_room_at_first(u: Set<Name>, fs: Seq<Name>)
    ensures
        room(u, Map::empty(), fs) == 2 * fs.len() * (u.len() + 1),
    decreases fs.len(),
{
    let n = fs.len() as int;
    let m = (u.len() + 1) as int;
    if fs.len() > 0 {
        lemma_room_at_first(u, fs.drop_last());
        assert(2 * (n - 1) * m + m + m == 2 * n * m) by (nonlinear_arith);
        assert(fs.drop_last().len() == n - 1);
    } else {
        assert(2 * n * m == 0) by (nonlinear_arith)
            requires
                n == 0,
        ;
    }
}

/// From `a` to `b` no more analyses were queued than summaries have grown.
spec fn spends(t: TablesV, a: StateV, b: StateV) -> bool {
    &&& bounded(t, b.entry)
    &&& cost(t, b) <= cost(t, a)
    &&& a.aborted == b.aborted
}

/// What the lemmas on single steps need to know of the scope.
spec fn known(t: TablesV) -> bool {
    &&& classes_known(t)
    &&& t.funcs.dom().finite()
    &&& t.externs.dom().finite()
}

proof fn lemma_grow_spends(t: TablesV, st: StateV, k: Key, held: Set<Name>)
    requires
        known(t),
        bounded(t, st.entry),
        t.funcs.contains_key(k.0),
        held.subset_of(holdable(t)),
    ensures
        spends(t, st, grow_entry(st, k, held)),
{
    let u = holdable(t);
    let fs = sorted(t.funcs.dom());
    let end = grow_entry(st, k, held);
    let all = entry_of(st.entry, k).union(held);
    assert(end.entry == st.entry.insert(k, all));
    assert(all.subset_of(u));
    if st.entry.contains_key(k) && held.subset_of(st.entry[k]) {
        assert(all =~= st.entry[k]);
        assert(end.entry =~= st.entry);
    } else {
        lemma_sorted_set(t.funcs.dom());
        assert(fs.contains(k.0));
        vstd::set_lib::lemma_len_subset(all, u);
        if st.entry.contains_key(k) {
            vstd::set_lib::lemma_len_subset(st.entry[k], all);
            if st.entry[k].len() == all.len() {
                vstd::set_lib::lemma_subset_equality(st.entry[k], all);
                assert(false) by {
                    assert forall|x: Name| held.contains(x) implies st.entry[k].contains(x) by {
                        assert(all.contains(x));
                    }
                }
            }
        }
        lemma_room_shrinks(u, st.entry, k, all, fs);
    }
}

proof fn lemma_grow_all_spends(t: TablesV, st: StateV, fs: Seq<Name>, masked: bool, held: Set<Name>)
    requires
        known(t),
        bounded(t, st.entry),
        forall|i: int| 0 <= i < fs.len() ==> t.funcs.contains_key(#[trigger] fs[i]),
        held.subset_of(holdable(t)),
    ensures
        spends(t, st, grow_all(st, fs, masked, held)),
    decreases fs.len(),
{
    if fs.len() > 0 {
        let r = fs.drop_last();
        assert forall|i: int| 0 <= i < r.len() implies t.funcs.contains_key(#[trigger] r[i]) by {
            assert(r[i] == fs[i]);
        }
        lemma_grow_all_spends(t, st, r, masked, held);
        lemma_grow_spends(t, grow_all(st, r, masked, held), (fs.last(), masked), held);
    }
}

/// Recording acquisitions and errors queues nothing.
spec fn same_queue(a: StateV, b: StateV) -> bool {
    a.entry == b.entry && a.queue == b.queue && a.aborted == b.aborted
}

proof fn lemma_check_args_queue(
    c: ScopeV,
    st: StateV,
    params: Seq<Name>,
    args: Seq<Name>,
    line: nat,
)
    ensures
        same_queue(st, check_args(c, st, params, args, line)),
    decreases args.len(),
{
    if args.len() > 0 {
        lemma_check_args_queue(c, st, params, args.drop_last(), line);
    }
}

proof fn lemma_check_locks_queue(c: ScopeV, st: StateV, locks: Seq<Name>, line: nat)
    ensures
        same_queue(st, check_locks(c, st, locks, line)),
    decreases locks.len(),
{
    if locks.len() > 0 {
        lemma_check_locks_queue(c, st, locks.drop_last(), line);
    }
}

proof fn lemma_extern_acquires_queue(
    c: ScopeV,
    st: StateV,
    name: Name,
    line: nat,
    held: Set<Name>,
    masked: bool,
    acquires: Seq<Name>,
)
    ensures
        same_queue(st, extern_acquires(c, st, name, line, held, masked, acquires)),
    decreases acquires.len(),
{
    if acquires.len() > 0 {
        lemma_extern_acquires_queue(c, st, name, line, held, masked, acquires.drop_last());
    }
}

proof fn lemma_apply_all_queue(
    c: ScopeV,
    st: StateV,
    es: Seq<Name>,
    args: Seq<Name>,
    line: nat,
    held: Set<Name>,
    masked: bool,
)
    ensures
        same_queue(st, apply_all(c, st, es, args, line, held, masked)),
    decreases es.len(),
{
    if es.len() > 0 {
        let st1 = apply_all(c, st, es.drop_last(), args, line, held, masked);
        lemma_apply_all_queue(c, st, es.drop_last(), args, line, held, masked);
        lemma_extern_acquires_queue(
            c,
            st1,
            es.last(),
            line,
            held,
            masked,
            c.t.externs[es.last()],
        );
    }
}

proof fn lemma_call_spends(
    c: ScopeV,
    st: StateV,
    frame: FrameV,
    callee: Name,
    args: Seq<Name>,
    line: nat,
    held: Set<Name>,
    masked: bool,
)
    requires
        known(c.t),
        bounded(c.t, st.entry),
        held.subset_of(holdable(c.t)),
    ensures
        spends(c.t, st, call_stmt(c, st, frame, callee, args, line, held, masked)),
{
    let st1 = check_args(c, st, frame.params, args, line);
    lemma_check_args_queue(c, st, frame.params, args, line);
    if frame.params.contains(callee) {
        let fs = sorted(flowing_funcs(c.t, frame.name, callee));
        let es = sorted(flowing_externs(c.t, frame.name, callee));
        let st2 = if fs.len() == 1 && es.len() == 0 && c.t.funcs.contains_key(fs[0])
            && c.t.funcs[fs[0]].params.len() != args.len() {
            fail_arity(c, st1, line, fs[0], c.t.funcs[fs[0]].params.len(), args.len())
        } else {
            st1
        };
        assert forall|i: int| 0 <= i < fs.len() implies c.t.funcs.contains_key(
            #[trigger] fs[i],
        ) by {
            let x = TargetV::Func(fs[i]);
            assert(fs.contains(fs[i]));
            lemma_sorted_targets(c, frame.name, callee, x);
            let n = choose|n: nat| flows_by(c.t, n, frame.name, callee, x);
            lemma_flow_known(c.t, n, frame.name, callee, x);
        }
        lemma_grow_all_spends(c.t, st2, fs, masked, held);
        lemma_apply_all_queue(c, grow_all(st2, fs, masked, held), es, args, line, held, masked);
    } else if c.t.funcs.contains_key(callee) {
        lemma_grow_spends(c.t, st1, (callee, masked), held);
    } else if c.t.externs.contains_key(callee) {
        lemma_extern_acquires_queue(c, st, callee, line, held, masked, c.t.externs[callee]);
    }
}

proof fn lemma_block_spends(c: ScopeV, st: StateV, frame: FrameV, block: Seq<StmtV>, p: PlaceV)
    requires
        known(c.t),
        bounded(c.t, st.entry),
        p.held.subset_of(holdable(c.t)),
        p.depth <= MAX_DEPTH,
        fits(block, block.len() as int, MAX_DEPTH - p.depth),
    ensures
        spends(c.t, st, run_block(c, st, frame, block, p)),
    decreases block, block.len() + 1,
{
    if !st.aborted {
        lemma_upto_spends(c, st, frame, block, block.len() as int, p);
    }
}

proof fn lemma_upto_spends(
    c: ScopeV,
    st: StateV,
    frame: FrameV,
    block: Seq<StmtV>,
    n: int,
    p: PlaceV,
)
    requires
        known(c.t),
        bounded(c.t, st.entry),
        p.held.subset_of(holdable(c.t)),
        p.depth <= MAX_DEPTH,
        fits(block, n, MAX_DEPTH - p.depth),
    ensures
        spends(c.t, st, run_upto(c, st, frame, block, n, p)),
    decreases block, n,
{
    if 0 < n <= block.len() {
        let st1 = run_upto(c, st, frame, block, n - 1, p);
        lemma_upto_spends(c, st, frame, block, n - 1, p);
        lemma_stmt_spends(c, st1, frame, block[n - 1], p);
    }
}

proof fn lemma_stmt_spends(c: ScopeV, st: StateV, frame: FrameV, s: StmtV, p: PlaceV)
    requires
        known(c.t),
        bounded(c.t, st.entry),
        p.held.subset_of(holdable(c.t)),
        p.depth <= MAX_DEPTH,
        fits_in(s, MAX_DEPTH - p.depth),
    ensures
        spends(c.t, st, run_stmt(c, st, frame, s, p)),
    decreases s,
{
    match s {
        StmtV::With { lock, line, body } => {
            if c.t.lock_class.contains_key(lock) {
                let class = c.t.lock_class[lock];
                let idx = c.t.lock_index[lock];
                let counted = counted_held(p, class, idx);
                let st1 = emit(c, st, frame.name, line, counted, class);
                let st2 = emit_preemption(c, st1, frame.name, line, class, p.masked);
                lemma_block_spends(c, st2, frame, body, inside_with(p, class, idx));
            }
        },
        StmtV::Ordered { locks, line, body } => {
            lemma_check_locks_queue(c, st, locks, line);
            let st1 = check_locks(c, st, locks, line);
            let q = lock_classes(c.t, locks);
            if all_declared(c.t, locks) && locks.len() > 0
                && all_same(q) {
                assert(c.t.lock_class.contains_key(locks[0]));
                let st2 = emit(c, st1, frame.name, line, p.held, q[0]);
                let st3 = emit_preemption(c, st2, frame.name, line, q[0], p.masked);
                lemma_block_spends(c, st3, frame, body, inside_ordered(c.t, p, locks));
            }
        },
        StmtV::Couple { class, line, body } => {
            let coupled = if p.coupled.contains_key(class) {
                p.coupled
            } else {
                p.coupled.insert(class, None)
            };
            lemma_block_spends(c, st, frame, body, PlaceV { coupled, depth: p.depth + 1, ..p });
        },
        StmtV::Mask { body } => {
            let inner = PlaceV { masked: true, depth: p.depth + 1, ..p };
            lemma_block_spends(c, st, frame, body, inner);
        },
        StmtV::Call { callee, args, line } => {
            lemma_call_spends(c, st, frame, callee, args, line, p.held, p.masked);
        },
    }
}

/// The analysis goes on, and will not run out of analyses.
spec fn in_time(t: TablesV, st: StateV) -> bool {
    &&& bounded(t, st.entry)
    &&& !st.aborted
    &&& st.incomplete is None
    &&& st.analyses + cost(t, st) <= MAX_ANALYSES
}

proof fn lemma_turn_in_time(c: ScopeV, st: StateV)
    requires
        known(c.t),
        program_fits(c.t),
        in_time(c.t, st),
    ensures
        in_time(c.t, turn(c, st)),
{
    if st.queue.len() > 0 {
        let k = st.queue.last();
        let popped = StateV { queue: st.queue.drop_last(), ..st };
        let st1 = StateV { analyses: popped.analyses + 1, ..popped };
        lemma_room_not_negative(c.t, st.entry, sorted(c.t.funcs.dom()));
        assert(st1.analyses + cost(c.t, st1) == st.analyses + cost(c.t, st));
        if c.t.funcs.contains_key(k.0) {
            let f = c.t.funcs[k.0];
            let frame = FrameV { name: k.0, params: f.params };
            let p = entry_place(st1.entry, k);
            lemma_block_spends(c, st1, frame, f.body, p);
            lemma_block_extends(c, st1, frame, f.body, p);
        }
    }
}

proof fn lemma_turns_in_time(c: ScopeV, st: StateV, n: nat)
    requires
        known(c.t),
        program_fits(c.t),
        in_time(c.t, st),
    ensures
        in_time(c.t, turns(c, st, n)),
    decreases n,
{
    if n > 0 {
        lemma_turns_in_time(c, st, (n - 1) as nat);
        lemma_turn_in_time(c, turns(c, st, (n - 1) as nat));
    }
}

proof fn lemma_seeded_in_time(c: ScopeV, fs: Seq<Name>)
    requires
        known(c.t),
        forall|i: int| 0 <= i < fs.len() ==> c.t.funcs.contains_key(#[trigger] fs[i]),
        fs.no_duplicates(),
    ensures
        ({
            let st = no_state(c.t);
            let end = seed_all(c, st, fs);
            &&& bounded(c.t, end.entry)
            &&& cost(c.t, end) <= cost(c.t, st)
            &&& !end.aborted
            &&& end.incomplete is None
            &&& end.analyses == 0
            &&& forall|k: Key| #[trigger] end.entry.contains_key(k) ==> fs.contains(k.0)
        }),
    decreases fs.len(),
{
    if fs.len() > 0 {
        let r = fs.drop_last();
        assert forall|i: int| 0 <= i < r.len() implies c.t.funcs.contains_key(#[trigger] r[i]) by {
            assert(r[i] == fs[i]);
        }
        lemma_seeded_in_time(c, r);
        let st1 = seed_all(c, no_state(c.t), r);
        let f = fs.last();
        let isr = c.t.funcs[f].is_isr;
        let k = (f, isr);
        let held = if isr {
            Set::<Name>::empty().insert(cpu())
        } else {
            Set::empty()
        };
        if st1.entry.contains_key(k) {
            let i = choose|i: int| 0 <= i < r.len() && r[i] == f;
            assert(fs[i] == fs[fs.len() - 1]);
            assert(false);
        }
        let end = seed_all(c, no_state(c.t), fs);
        lemma_grow_spends(c.t, st1, k, held);
        let grown = grow_entry(st1, k, held);
        assert(end.entry == grown.entry && end.queue == grown.queue);
        assert forall|j: Key| #[trigger] end.entry.contains_key(j) implies fs.contains(j.0) by {
            if j == k {
                assert(fs[fs.len() - 1] == f);
            } else {
                assert(st1.entry.contains_key(j));
                let i = choose|i: int| 0 <= i < r.len() && r[i] == j.0;
                assert(fs[i] == j.0);
            }
        }
    }
}

proof fn lemma_distinct_functions(t: TablesV)
    requires
        t.funcs.dom().finite(),
    ensures
        ({
            let fs = sorted(t.funcs.dom());
            &&& fs.no_duplicates()
            &&& fs.len() == t.funcs.dom().len()
            &&& forall|i: int| 0 <= i < fs.len() ==> t.funcs.contains_key(#[trigger] fs[i])
        }),
{
    let fs = sorted(t.funcs.dom());
    lemma_sorted_set(t.funcs.dom());
    assert forall|i: int, j: int| 0 <= i < fs.len() && 0 <= j < fs.len() && i != j implies fs[i]
        != fs[j] by {
        lemma_lex_irreflexive(fs[i]);
    }
    fs.unique_seq_to_set();
    assert forall|i: int| 0 <= i < fs.len() implies t.funcs.contains_key(#[trigger] fs[i]) by {
        assert(fs.contains(fs[i]));
    }
}

/// The program is small enough for the analysis to end before the limit on
/// analyses: each function has two summaries, and each can grow once for every
/// class and once for the processor.
pub open spec fn within_limits(t: TablesV) -> bool {
    2 * t.funcs.dom().len() * (t.class_instances.dom().len() + 2) <= 2_000_000
}

/// The analysis is definitive: where blocks are not nested too deep and the
/// program is within limits, what lowering returns is complete.
pub proof fn lowering_is_definitive(items: Seq<ItemV>, file: Name, p: ProgramV)
    requires
        lowering(items, file) == Ok::<ProgramV, Seq<Name>>(p),
        program_fits(tables_of(items)),
        within_limits(tables_of(items)),
    ensures
        p.incomplete is None,
{
    let t = tables_of(items);
    let c = ScopeV { t, file };
    let fs = sorted(t.funcs.dom());
    lemma_tables_finite(items);
    lemma_classes_known(items);
    lemma_distinct_functions(t);
    lemma_seeded_in_time(c, fs);
    lemma_room_at_first(holdable(t), fs);
    let n = fs.len();
    let m = holdable(t).len() + 1;
    let most = t.class_instances.dom().len() + 2;
    assert(m <= most);
    assert(2 * n * m <= 2 * n * most) by (nonlinear_arith)
        requires
            m <= most,
    ;
    lemma_turns_in_time(c, seeded(c), (MAX_ANALYSES + 1) as nat);
}

proof fn lemma_prefix_fits(a: Seq<StmtV>, b: Seq<StmtV>, n: int, room: int)
    requires
        0 <= n <= a.len(),
        n <= b.len(),
        a.take(n) == b.take(n),
        fits(a, n, room),
    ensures
        fits(b, n, room),
    decreases n,
{
    if n > 0 {
        assert(a.take(n - 1) =~= a.take(n).take(n - 1));
        assert(b.take(n - 1) =~= b.take(n).take(n - 1));
        lemma_prefix_fits(a, b, n - 1, room);
        assert(a[n - 1] == a.take(n)[n - 1]);
        assert(b[n - 1] == b.take(n)[n - 1]);
    }
}

proof fn lemma_block_fits(toks: Seq<TokenV>, i: int, depth: nat)
    requires
        parse_block(toks, i, depth) is Ok,
    ensures
        ({
            let (b, j) = parse_block(toks, i, depth)->Ok_0;
            depth <= MAX_DEPTH && fits(b, b.len() as int, MAX_DEPTH + 1 - depth)
        }),
    decreases toks.len() - i, 0nat,
{
    lemma_stmts_fit(toks, i + 1, depth, Seq::empty());
}

proof fn lemma_stmts_fit(toks: Seq<TokenV>, i: int, depth: nat, q: Seq<StmtV>)
    requires
        0 <= i,
        fits(q, q.len() as int, MAX_DEPTH + 1 - depth),
        parse_stmts(toks, i, depth, q) is Ok,
    ensures
        ({
            let (b, j) = parse_stmts(toks, i, depth, q)->Ok_0;
            fits(b, b.len() as int, MAX_DEPTH + 1 - depth)
        }),
    decreases toks.len() - i, 2nat,
{
    if !is_at(toks, i, TkV::RBrace) && i < toks.len() {
        let (s, j) = parse_stmt(toks, i, depth)->Ok_0;
        lemma_stmt_end(toks, i, depth);
        lemma_stmt_fits(toks, i, depth);
        let q2 = q.push(s);
        let n = q.len() as int;
        assert(q2.take(n) =~= q.take(n));
        lemma_prefix_fits(q, q2, n, MAX_DEPTH + 1 - depth);
        assert(fits(q2, n + 1, MAX_DEPTH + 1 - depth));
        lemma_stmts_fit(toks, j, depth, q2);
    }
}

proof fn lemma_stmt_fits(toks: Seq<TokenV>, i: int, depth: nat)
    requires
        parse_stmt(toks, i, depth) is Ok,
        0 <= i < toks.len(),
    ensures
        fits_in((parse_stmt(toks, i, depth)->Ok_0).0, MAX_DEPTH + 1 - depth),
    decreases toks.len() - i, 1nat,
{
    let (s, k) = parse_stmt(toks, i, depth)->Ok_0;
    lemma_pieces(toks, i, depth);
    match s {
        StmtV::With { lock, line, body } => lemma_block_fits(toks, i + 2, depth + 1),
        StmtV::Ordered { locks, line, body } => {
            let (_, j) = parse_list(toks, i + 2)->Ok_0;
            lemma_list_end(toks, i + 2);
            lemma_block_fits(toks, j, depth + 1);
        },
        StmtV::Couple { class, line, body } => lemma_block_fits(toks, i + 2, depth + 1),
        StmtV::Mask { body } => lemma_block_fits(toks, i + 1, depth + 1),
        StmtV::Call { callee, args, line } => {},
    }
}

/// The item nests its blocks no deeper than the analysis goes.
spec fn item_fits(x: ItemV) -> bool {
    match x {
        ItemV::Func(f) => fits(f.body, f.body.len() as int, MAX_DEPTH as int),
        _ => true,
    }
}

proof fn lemma_fn_fits(toks: Seq<TokenV>, i: int, is_isr: bool)
    requires
        parse_fn(toks, i, is_isr) is Ok,
    ensures
        item_fits((parse_fn(toks, i, is_isr)->Ok_0).0),
{
    reveal(parse_fn);
    let (_, l) = parse_list(toks, i + 2)->Ok_0;
    lemma_block_fits(toks, l, 1);
}

proof fn lemma_item_fits(toks: Seq<TokenV>, i: int)
    requires
        parse_item(toks, i) is Ok,
    ensures
        item_fits((parse_item(toks, i)->Ok_0).0),
{
    reveal(parse_item);
    if is_word(toks, i, "lock"@) {
        reveal(parse_lock);
    } else if is_word(toks, i, "extern"@) {
        reveal(parse_foreign);
    } else if is_word(toks, i, "isr"@) {
        lemma_fn_fits(toks, i + 1, true);
    } else {
        lemma_fn_fits(toks, i, false);
    }
}

proof fn lemma_items_fit(toks: Seq<TokenV>, i: int, q: Seq<ItemV>)
    requires
        forall|k: int| 0 <= k < q.len() ==> item_fits(#[trigger] q[k]),
        parse_items(toks, i, q) is Ok,
    ensures
        forall|k: int|
            0 <= k < parse_items(toks, i, q)->Ok_0.len() ==> item_fits(
                #[trigger] parse_items(toks, i, q)->Ok_0[k],
            ),
    decreases toks.len() - i,
{
    if i < toks.len() {
        let (x, j) = parse_item(toks, i)->Ok_0;
        lemma_item_end(toks, i);
        lemma_item_fits(toks, i);
        lemma_items_fit(toks, j, q.push(x));
    }
}

proof fn lemma_declared_fits(items: Seq<ItemV>)
    requires
        forall|k: int| 0 <= k < items.len() ==> item_fits(#[trigger] items[k]),
    ensures
        program_fits(declared(items)),
    decreases items.len(),
{
    if items.len() > 0 {
        let r = items.drop_last();
        assert forall|k: int| 0 <= k < r.len() implies item_fits(#[trigger] r[k]) by {
            assert(r[k] == items[k]);
        }
        assert(item_fits(items[items.len() - 1]));
        lemma_declared_fits(r);
        let t = declared(r);
        let end = declared(items);
        assert forall|f: Name| #[trigger] end.funcs.contains_key(f) implies fits(
            end.funcs[f].body,
            end.funcs[f].body.len() as int,
            MAX_DEPTH as int,
        ) by {
            match items.last() {
                ItemV::Func(g) => {
                    if f != g.name {
                        assert(t.funcs.contains_key(f));
                    }
                },
                _ => {
                    assert(t.funcs.contains_key(f));
                },
            }
        }
    }
}

/// The verdict on a source file is definitive: where it parses, is lowered
/// without errors and is within limits, the analysis is complete.
pub proof fn sources_get_a_definitive_verdict(
    src: Name,
    items: Seq<ItemV>,
    file: Name,
    p: ProgramV,
)
    requires
        parsed(src) == Ok::<Seq<ItemV>, Name>(items),
        lowering(items, file) == Ok::<ProgramV, Seq<Name>>(p),
        within_limits(tables_of(items)),
    ensures
        p.incomplete is None,
{
    let toks = lexed(src, 0, 1, Seq::empty())->Ok_0;
    lemma_items_fit(toks, 0, Seq::empty());
    assert forall|k: int| 0 <= k < items.len() implies item_fits(#[trigger] items[k]) by {
        assert(parse_items(toks, 0, Seq::empty())->Ok_0[k] == items[k]);
    }
    lemma_declared_fits(items);
    assert(program_fits(tables_of(items))) by {
        assert(program_fits(declared(items)));
    }
    lowering_is_definitive(items, file, p);
}

}
