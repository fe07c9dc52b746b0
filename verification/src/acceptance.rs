//! Which programs are accepted, and where their acquisitions are recorded.

use vstd::prelude::*;

use crate::ast::{ItemV, StmtV};
use crate::frontend::{
    analyzed, entry_place, inside_ordered, inside_with, lock_classes, lowering, site_at, FrameV,
    PlaceV, ScopeV, StateV,
};
use crate::lint::accounting::lemma_push;
use crate::model::{EventV, ProgramV};
use crate::soundness::{
    block_recorded, can_enter, is_noted, lemma_analyzed, start_held, stmt_recorded,
};
use crate::tables::{
    declared, extern_errors, is_class, lemma_tables_finite, repeated_params, tables_of,
    unknown_classes, TablesV,
};
use crate::text::{dec, Name};

verus! {

/// The block of a statement. An `ordered` without locks runs nothing.
pub open spec fn body_of(s: StmtV) -> Seq<StmtV> {
    match s {
        StmtV::With { lock, line, body } => body,
        StmtV::Ordered { locks, line, body } => if locks.len() > 0 {
            body
        } else {
            Seq::empty()
        },
        StmtV::Couple { class, line, body } => body,
        StmtV::Mask { body } => body,
        StmtV::Call { callee, args, line } => Seq::empty(),
    }
}

/// The statement that is reached by its number in the block, its number in the
/// block of that one, and so on.
pub open spec fn stmt_at(block: Seq<StmtV>, path: Seq<int>) -> Option<StmtV>
    decreases path.len(),
{
    if path.len() == 0 || !(0 <= path[0] < block.len()) {
        None
    } else if path.len() == 1 {
        Some(block[path[0]])
    } else {
        stmt_at(body_of(block[path[0]]), path.drop_first())
    }
}

proof fn lemma_block_at(
    c: ScopeV,
    st: StateV,
    frame: FrameV,
    block: Seq<StmtV>,
    n: int,
    p: PlaceV,
    i: int,
)
    requires
        block_recorded(c, st, frame, block, n, p),
        0 <= i < n <= block.len(),
    ensures
        stmt_recorded(c, st, frame, block[i], p),
    decreases n,
{
    if i < n - 1 {
        lemma_block_at(c, st, frame, block, n - 1, p, i);
    }
}

/// Some place at which the statement is recorded.
spec fn is_recorded(c: ScopeV, st: StateV, frame: FrameV, s: StmtV) -> bool {
    exists|q: PlaceV| #[trigger] stmt_recorded(c, st, frame, s, q)
}

proof fn lemma_path_recorded(
    c: ScopeV,
    st: StateV,
    frame: FrameV,
    block: Seq<StmtV>,
    p: PlaceV,
    path: Seq<int>,
)
    requires
        block_recorded(c, st, frame, block, block.len() as int, p),
        stmt_at(block, path) is Some,
    ensures
        is_recorded(c, st, frame, stmt_at(block, path)->0),
    decreases path.len(),
{
    let i = path[0];
    let x = block[i];
    lemma_block_at(c, st, frame, block, block.len() as int, p, i);
    if path.len() > 1 {
        let rest = path.drop_first();
        let body = body_of(x);
        assert(stmt_at(body, rest) is Some);
        assert(0 <= rest[0] < body.len());
        let q = lemma_inner(c, st, frame, x, p);
        lemma_path_recorded(c, st, frame, body, q, rest);
    }
}

/// The place at which the block of a statement is recorded.
proof fn lemma_inner(c: ScopeV, st: StateV, frame: FrameV, x: StmtV, p: PlaceV) -> (q: PlaceV)
    requires
        stmt_recorded(c, st, frame, x, p),
        body_of(x).len() > 0,
    ensures
        block_recorded(c, st, frame, body_of(x), body_of(x).len() as int, q),
{
    match x {
        StmtV::With { lock, line, body } => inside_with(
            p,
            c.t.lock_class[lock],
            c.t.lock_index[lock],
        ),
        StmtV::Ordered { locks, line, body } => inside_ordered(c.t, p, locks),
        StmtV::Couple { class, line, body } => PlaceV {
            coupled: if p.coupled.contains_key(class) {
                p.coupled
            } else {
                p.coupled.insert(class, None)
            },
            depth: p.depth + 1,
            ..p
        },
        StmtV::Mask { body } => PlaceV { masked: true, depth: p.depth + 1, ..p },
        StmtV::Call { callee, args, line } => p,
    }
}

/// The event is an acquisition of `class` by the function at the line.
pub open spec fn is_taken_at(e: EventV, function: Name, file: Name, line: nat, class: Name) -> bool {
    e.function == function && e.site == file + ":"@ + dec(line) && e.acquires == class
}

/// Some event is an acquisition of `class` by the function at the line.
pub open spec fn is_taken_somewhere(
    events: Seq<EventV>,
    function: Name,
    file: Name,
    line: nat,
    class: Name,
) -> bool {
    exists|i: int|
        0 <= i < events.len() && is_taken_at(#[trigger] events[i], function, file, line, class)
}

/// Some lock of the program has the class.
pub open spec fn has_class(t: TablesV, class: Name) -> bool {
    exists|l: Name| #[trigger] t.lock_class.contains_key(l) && t.lock_class[l] == class
}

/// The statement is well formed: its locks are declared, the locks of an
/// `ordered` share one class, the class of a couple is that of a lock; what is
/// called is a parameter, a function with as many parameters or an extern without
/// arguments, and every argument is a parameter, a function or an extern.
pub open spec fn is_formed(t: TablesV, params: Seq<Name>, s: StmtV) -> bool {
    match s {
        StmtV::With { lock, line, body } => t.lock_class.contains_key(lock),
        StmtV::Ordered { locks, line, body } => forall|i: int, j: int|
            0 <= i < locks.len() && 0 <= j < locks.len() ==> {
                &&& t.lock_class.contains_key(#[trigger] locks[i])
                &&& t.lock_class[locks[i]] == t.lock_class[#[trigger] locks[j]]
            },
        StmtV::Couple { class, line, body } => has_class(t, class),
        StmtV::Mask { body } => true,
        StmtV::Call { callee, args, line } => {
            &&& params.contains(callee) || t.funcs.contains_key(callee) || t.externs.contains_key(
                callee,
            )
            &&& !params.contains(callee) && t.funcs.contains_key(callee) ==> args.len()
                == t.funcs[callee].params.len()
            &&& !params.contains(callee) && !t.funcs.contains_key(callee) ==> args.len() == 0
            &&& forall|i: int|
                0 <= i < args.len() ==> params.contains(#[trigger] args[i])
                    || t.funcs.contains_key(args[i]) || t.externs.contains_key(args[i])
        },
    }
}

/// In a program that is accepted and analyzed completely, every statement of
/// every function is well formed, at whatever depth it stands; and every `with`
/// is recorded as an acquisition of the class of its locks, by its function, at
/// its line, and every call of an extern as an acquisition of each class that the
/// extern declares, by the extern, at the line of the call.
pub proof fn accepted_statements_are_formed_and_recorded(
    items: Seq<ItemV>,
    file: Name,
    p: ProgramV,
    f: Name,
    path: Seq<int>,
)
    requires
        lowering(items, file) == Ok::<ProgramV, Seq<Name>>(p),
        p.incomplete is None,
        tables_of(items).funcs.contains_key(f),
        stmt_at(tables_of(items).funcs[f].body, path) is Some,
    ensures
        ({
            let t = tables_of(items);
            let s = stmt_at(t.funcs[f].body, path)->0;
            &&& is_formed(t, t.funcs[f].params, s)
            &&& match s {
                StmtV::With { lock, line, body } => exists|i: int|
                    0 <= i < p.events.len() && is_taken_at(
                        #[trigger] p.events[i],
                        f,
                        file,
                        line,
                        t.lock_class[lock],
                    ),
                StmtV::Ordered { locks, line, body } => locks.len() > 0 ==> exists|i: int|
                    0 <= i < p.events.len() && is_taken_at(
                        #[trigger] p.events[i],
                        f,
                        file,
                        line,
                        t.lock_class[locks[0]],
                    ),
                StmtV::Call { callee, args, line } => !t.funcs[f].params.contains(callee)
                    && !t.funcs.contains_key(callee) ==> forall|k: int|
                    0 <= k < t.externs[callee].len() ==> is_taken_somewhere(
                        p.events,
                        callee,
                        file,
                        line,
                        #[trigger] t.externs[callee][k],
                    ),
                _ => true,
            }
        }),
{
    let t = tables_of(items);
    let c = ScopeV { t, file };
    let end = analyzed(c);
    lemma_tables_finite(items);
    lemma_analyzed(c);
    let k = (f, t.funcs[f].is_isr);
    assert(can_enter(end, k, start_held(t, f)));
    let frame = FrameV { name: f, params: t.funcs[f].params };
    let s = stmt_at(t.funcs[f].body, path)->0;
    lemma_path_recorded(c, end, frame, t.funcs[f].body, entry_place(end.entry, k), path);
    let q = choose|q: PlaceV| #[trigger] stmt_recorded(c, end, frame, s, q);
    match s {
        StmtV::With { lock, line, body } => {
            let class = t.lock_class[lock];
            let i = choose|i: int|
                0 <= i < end.events.len() && (#[trigger] end.events[i]).function == f
                    && end.events[i].site == site_at(file, line) && end.events[i].acquires == class;
            assert(is_taken_at(p.events[i], f, file, line, class));
        },
        StmtV::Ordered { locks, line, body } => {
            let classes = lock_classes(t, locks);
            assert forall|i: int, j: int| 0 <= i < locks.len() && 0 <= j < locks.len() implies {
                &&& t.lock_class.contains_key(#[trigger] locks[i])
                &&& t.lock_class[locks[i]] == t.lock_class[#[trigger] locks[j]]
            } by {
                assert(classes[i] == classes[0] && classes[j] == classes[0]);
            }
            if locks.len() > 0 {
                let class = classes[0];
                let i = choose|i: int|
                    0 <= i < end.events.len() && (#[trigger] end.events[i]).function == f
                        && end.events[i].site == site_at(file, line) && end.events[i].acquires
                        == class;
                assert(is_taken_at(p.events[i], f, file, line, class));
            }
        },
        StmtV::Call { callee, args, line } => {
            if !t.funcs[f].params.contains(callee) && !t.funcs.contains_key(callee) {
                assert forall|k: int| 0 <= k < t.externs[callee].len() implies is_taken_somewhere(
                    p.events,
                    callee,
                    file,
                    line,
                    #[trigger] t.externs[callee][k],
                ) by {
                    let class = t.externs[callee][k];
                    assert(is_noted(end, callee, site_at(file, line), class));
                    let i = choose|i: int|
                        0 <= i < end.events.len() && (#[trigger] end.events[i]).function == callee
                            && end.events[i].site == site_at(file, line) && end.events[i].acquires
                            == class;
                    assert(is_taken_at(p.events[i], callee, file, line, class));
                }
            }
        },
        _ => {},
    }
}

/// Two items declare a lock, a function or an extern of the same name.
pub open spec fn clash(x: ItemV, y: ItemV) -> bool {
    match (x, y) {
        (ItemV::Lock { name: a, class: _ }, ItemV::Lock { name: b, class: _ }) => a == b,
        (ItemV::Func(f), ItemV::Func(g)) => f.name == g.name,
        (ItemV::Extern { name: a, acquires: _ }, ItemV::Extern { name: b, acquires: _ }) => a == b,
        _ => false,
    }
}

/// No two declarations of a program clash.
pub open spec fn no_clash(items: Seq<ItemV>) -> bool {
    forall|i: int, j: int|
        0 <= i < j < items.len() ==> !clash(#[trigger] items[i], #[trigger] items[j])
}

/// No function declares a parameter twice.
pub open spec fn params_differ(items: Seq<ItemV>) -> bool {
    forall|i: int|
        0 <= i < items.len() && (#[trigger] items[i]) is Func ==> items[i]->Func_0.params.no_duplicates()
}

/// Some lock of the program is declared with the class.
pub open spec fn some_lock_of(items: Seq<ItemV>, class: Name) -> bool {
    exists|i: int|
        0 <= i < items.len() && (#[trigger] items[i]) is Lock && items[i]->class == class
}

/// No function has the name.
pub open spec fn no_function(items: Seq<ItemV>, name: Name) -> bool {
    forall|i: int|
        0 <= i < items.len() && (#[trigger] items[i]) is Func ==> items[i]->Func_0.name != name
}

/// The extern is no function besides, and acquires only classes of locks.
pub open spec fn is_proper_extern(items: Seq<ItemV>, name: Name, acquires: Seq<Name>) -> bool {
    &&& no_function(items, name)
    &&& forall|k: int| 0 <= k < acquires.len() ==> some_lock_of(items, #[trigger] acquires[k])
}

/// Every extern is proper.
pub open spec fn externs_are_proper(items: Seq<ItemV>) -> bool {
    forall|i: int|
        0 <= i < items.len() && (#[trigger] items[i]) is Extern ==> is_proper_extern(
            items,
            items[i]->Extern_name,
            items[i]->acquires,
        )
}

/// What the tables hold of the items: every declaration, and nothing else.
pub open spec fn holds_items(t: TablesV, items: Seq<ItemV>) -> bool {
    &&& forall|i: int|
        0 <= i < items.len() ==> match #[trigger] items[i] {
            ItemV::Lock { name, class } => t.lock_class.contains_key(name) && t.lock_class[name]
                == class,
            ItemV::Func(f) => t.funcs.contains_key(f.name) && t.funcs[f.name] == f,
            ItemV::Extern { name, acquires } => t.externs.contains_key(name) && t.externs[name]
                == acquires,
        }
    &&& forall|l: Name| #[trigger]
        t.lock_class.contains_key(l) ==> exists|i: int|
            0 <= i < items.len() && #[trigger] items[i] == (ItemV::Lock {
                name: l,
                class: t.lock_class[l],
            })
    &&& forall|f: Name| #[trigger]
        t.funcs.contains_key(f) ==> exists|i: int|
            0 <= i < items.len() && #[trigger] items[i] == ItemV::Func(t.funcs[f])
                && t.funcs[f].name == f
    &&& forall|e: Name| #[trigger]
        t.externs.contains_key(e) ==> exists|i: int|
            0 <= i < items.len() && #[trigger] items[i] == (ItemV::Extern {
                name: e,
                acquires: t.externs[e],
            })
}

proof fn lemma_repeated(fname: Name, params: Seq<Name>)
    ensures
        repeated_params(fname, params).len() == 0 <==> params.no_duplicates(),
    decreases params.len(),
{
    if params.len() > 0 {
        let r = params.drop_last();
        lemma_repeated(fname, r);
        if params.no_duplicates() {
            assert(!r.contains(params.last())) by {
                if r.contains(params.last()) {
                    let i = choose|i: int| 0 <= i < r.len() && r[i] == params.last();
                    assert(params[i] == params[params.len() - 1]);
                }
            }
            assert forall|i: int, j: int| 0 <= i < r.len() && 0 <= j < r.len() && i
                != j implies r[i] != r[j] by {
                assert(params[i] != params[j]);
            }
        }
        if r.no_duplicates() && !r.contains(params.last()) {
            assert forall|i: int, j: int| 0 <= i < params.len() && 0 <= j < params.len() && i
                != j implies params[i] != params[j] by {
                if i < r.len() && j < r.len() {
                    assert(r[i] != r[j]);
                } else if i < r.len() {
                    assert(r.contains(r[i]));
                } else {
                    assert(r.contains(r[j]));
                }
            }
        }
    }
}

/// The key of a declaration.
spec fn is_seen(t: TablesV, x: ItemV) -> bool {
    match x {
        ItemV::Lock { name, class: _ } => t.lock_class.contains_key(name),
        ItemV::Func(f) => t.funcs.contains_key(f.name),
        ItemV::Extern { name, acquires: _ } => t.externs.contains_key(name),
    }
}

proof fn lemma_seen(items: Seq<ItemV>, x: ItemV)
    ensures
        is_seen(declared(items), x) <==> exists|i: int|
            0 <= i < items.len() && clash(#[trigger] items[i], x),
    decreases items.len(),
{
    if items.len() > 0 {
        let r = items.drop_last();
        let n = r.len() as int;
        lemma_seen(r, x);
        if exists|i: int| 0 <= i < r.len() && clash(#[trigger] r[i], x) {
            let i = choose|i: int| 0 <= i < r.len() && clash(#[trigger] r[i], x);
            assert(clash(items[i], x));
        }
        if exists|i: int| 0 <= i < items.len() && clash(#[trigger] items[i], x) {
            let i = choose|i: int| 0 <= i < items.len() && clash(#[trigger] items[i], x);
            if i < n {
                assert(clash(r[i], x));
            }
        }
        assert(items[n] == items.last());
    }
}

proof fn lemma_declared_errors(items: Seq<ItemV>)
    ensures
        declared(items).errors.len() == 0 <==> no_clash(items) && params_differ(items),
    decreases items.len(),
{
    if items.len() > 0 {
        let r = items.drop_last();
        let n = r.len() as int;
        let x = items.last();
        lemma_declared_errors(r);
        lemma_seen(r, x);
        if x is Func {
            lemma_repeated(x->Func_0.name, x->Func_0.params);
        }
        if no_clash(items) && params_differ(items) {
            assert(no_clash(r)) by {
                assert forall|i: int, j: int| 0 <= i < j < r.len() implies !clash(
                    #[trigger] r[i],
                    #[trigger] r[j],
                ) by {
                    assert(!clash(items[i], items[j]));
                }
            }
            assert(params_differ(r)) by {
                assert forall|i: int| 0 <= i < r.len() && (#[trigger] r[i]) is Func implies r[i]->Func_0.params.no_duplicates() by {
                    assert(items[i] is Func);
                }
            }
            assert(!is_seen(declared(r), x)) by {
                if is_seen(declared(r), x) {
                    let i = choose|i: int| 0 <= i < r.len() && clash(#[trigger] r[i], x);
                    assert(clash(items[i], items[n]));
                }
            }
            assert(items[n] is Func ==> items[n]->Func_0.params.no_duplicates());
        }
        if no_clash(r) && params_differ(r) && !is_seen(declared(r), x) && (x is Func
            ==> x->Func_0.params.no_duplicates()) {
            assert(no_clash(items)) by {
                assert forall|i: int, j: int| 0 <= i < j < items.len() implies !clash(
                    #[trigger] items[i],
                    #[trigger] items[j],
                ) by {
                    if j < n {
                        assert(!clash(r[i], r[j]));
                    } else {
                        assert(!clash(r[i], x));
                    }
                }
            }
            assert(params_differ(items)) by {
                assert forall|i: int| 0 <= i < items.len() && (#[trigger] items[i]) is Func implies items[i]->Func_0.params.no_duplicates() by {
                    if i < n {
                        assert(r[i] is Func);
                    }
                }
            }
        }
    }
}

proof fn lemma_holds(items: Seq<ItemV>)
    requires
        no_clash(items),
    ensures
        holds_items(declared(items), items),
    decreases items.len(),
{
    if items.len() > 0 {
        let r = items.drop_last();
        let n = r.len() as int;
        let x = items.last();
        assert(items[n] == x);
        assert(no_clash(r)) by {
            assert forall|i: int, j: int| 0 <= i < j < r.len() implies !clash(
                #[trigger] r[i],
                #[trigger] r[j],
            ) by {
                assert(!clash(items[i], items[j]));
            }
        }
        lemma_holds(r);
        let s = declared(r);
        let t = declared(items);
        assert forall|i: int| 0 <= i < items.len() implies match #[trigger] items[i] {
            ItemV::Lock { name, class } => t.lock_class.contains_key(name) && t.lock_class[name]
                == class,
            ItemV::Func(f) => t.funcs.contains_key(f.name) && t.funcs[f.name] == f,
            ItemV::Extern { name, acquires } => t.externs.contains_key(name) && t.externs[name]
                == acquires,
        } by {
            if i < n {
                assert(r[i] == items[i]);
                assert(!clash(items[i], items[n]));
            }
        }
        assert forall|l: Name| #[trigger] t.lock_class.contains_key(l) implies exists|i: int|
            0 <= i < items.len() && #[trigger] items[i] == (ItemV::Lock {
                name: l,
                class: t.lock_class[l],
            }) by {
            if x is Lock && x->Lock_name == l {
                assert(items[n] == (ItemV::Lock { name: l, class: t.lock_class[l] }));
            } else {
                assert(s.lock_class.contains_key(l));
                let i = choose|i: int|
                    0 <= i < r.len() && #[trigger] r[i] == (ItemV::Lock {
                        name: l,
                        class: s.lock_class[l],
                    });
                assert(items[i] == r[i]);
            }
        }
        assert forall|f: Name| #[trigger] t.funcs.contains_key(f) implies exists|i: int|
            0 <= i < items.len() && #[trigger] items[i] == ItemV::Func(t.funcs[f])
                && t.funcs[f].name == f by {
            if x is Func && x->Func_0.name == f {
                assert(items[n] == ItemV::Func(t.funcs[f]));
            } else {
                assert(s.funcs.contains_key(f));
                let i = choose|i: int|
                    0 <= i < r.len() && #[trigger] r[i] == ItemV::Func(s.funcs[f])
                        && s.funcs[f].name == f;
                assert(items[i] == r[i]);
            }
        }
        assert forall|e: Name| #[trigger] t.externs.contains_key(e) implies exists|i: int|
            0 <= i < items.len() && #[trigger] items[i] == (ItemV::Extern {
                name: e,
                acquires: t.externs[e],
            }) by {
            if x is Extern && x->Extern_name == e {
                assert(items[n] == (ItemV::Extern { name: e, acquires: t.externs[e] }));
            } else {
                assert(s.externs.contains_key(e));
                let i = choose|i: int|
                    0 <= i < r.len() && #[trigger] r[i] == (ItemV::Extern {
                        name: e,
                        acquires: s.externs[e],
                    });
                assert(items[i] == r[i]);
            }
        }
    }
}

proof fn lemma_unknown_classes(t: TablesV, name: Name, acquires: Seq<Name>)
    ensures
        unknown_classes(t, name, acquires).len() == 0 <==> forall|k: int|
            0 <= k < acquires.len() ==> is_class(t, #[trigger] acquires[k]),
    decreases acquires.len(),
{
    if acquires.len() > 0 {
        let r = acquires.drop_last();
        lemma_unknown_classes(t, name, r);
        let bad = forall|k: int| 0 <= k < acquires.len() ==> is_class(t, #[trigger] acquires[k]);
        if bad {
            assert forall|k: int| 0 <= k < r.len() implies is_class(t, #[trigger] r[k]) by {
                assert(is_class(t, acquires[k]));
            }
            assert(is_class(t, acquires[r.len() as int]));
        }
        if unknown_classes(t, name, acquires).len() == 0 {
            assert forall|k: int| 0 <= k < acquires.len() implies is_class(
                t,
                #[trigger] acquires[k],
            ) by {
                if k < r.len() {
                    assert(is_class(t, r[k]));
                }
            }
        }
    }
}

/// The extern of the name gives no error.
spec fn is_fine(t: TablesV, name: Name) -> bool {
    &&& !t.funcs.contains_key(name)
    &&& forall|k: int|
        0 <= k < t.externs[name].len() ==> is_class(t, #[trigger] t.externs[name][k])
}

proof fn lemma_extern_errors(t: TablesV, q: Seq<Name>)
    ensures
        extern_errors(t, q).len() == 0 <==> forall|i: int|
            0 <= i < q.len() ==> is_fine(t, #[trigger] q[i]),
    decreases q.len(),
{
    if q.len() > 0 {
        let r = q.drop_last();
        let n = r.len() as int;
        lemma_extern_errors(t, r);
        lemma_unknown_classes(t, q.last(), t.externs[q.last()]);
        assert(q[n] == q.last());
        if forall|i: int| 0 <= i < q.len() ==> is_fine(t, #[trigger] q[i]) {
            assert forall|i: int| 0 <= i < r.len() implies is_fine(t, #[trigger] r[i]) by {
                assert(is_fine(t, q[i]));
            }
            assert(is_fine(t, q[n]));
        }
        if extern_errors(t, q).len() == 0 {
            assert forall|i: int| 0 <= i < q.len() implies is_fine(t, #[trigger] q[i]) by {
                if i < n {
                    assert(is_fine(t, r[i]));
                }
            }
        }
    }
}

proof fn lemma_extern_names(items: Seq<ItemV>, e: Name)
    ensures
        declared(items).extern_names.contains(e) <==> declared(items).externs.contains_key(e),
    decreases items.len(),
{
    if items.len() > 0 {
        let r = items.drop_last();
        let q = declared(r).extern_names;
        lemma_extern_names(r, e);
        match items.last() {
            ItemV::Extern { name, acquires } => {
                lemma_push(q, name);
            },
            _ => {},
        }
    }
}

/// The declarations of a program give no error exactly if no two of them clash,
/// no function declares a parameter twice, no extern is a function besides, and
/// every class that an extern acquires is that of a lock.
pub proof fn declarations_are_accepted_iff_unambiguous(items: Seq<ItemV>)
    ensures
        tables_of(items).errors.len() == 0 <==> no_clash(items) && params_differ(items)
            && externs_are_proper(items),
        no_clash(items) ==> holds_items(tables_of(items), items),
{
    let t = declared(items);
    lemma_declared_errors(items);
    lemma_extern_errors(t, t.extern_names);
    if no_clash(items) {
        lemma_holds(items);
        assert forall|c: Name| #[trigger] is_class(t, c) <==> some_lock_of(items, c) by {
            if is_class(t, c) {
                let l = choose|l: Name| #[trigger]
                    t.lock_class.contains_key(l) && t.lock_class[l] == c;
                let i = choose|i: int|
                    0 <= i < items.len() && #[trigger] items[i] == (ItemV::Lock {
                        name: l,
                        class: t.lock_class[l],
                    });
                assert(items[i] is Lock && items[i]->class == c);
            }
            if some_lock_of(items, c) {
                let i = choose|i: int|
                    0 <= i < items.len() && (#[trigger] items[i]) is Lock && items[i]->class == c;
                let l = items[i]->Lock_name;
                assert(t.lock_class.contains_key(l) && t.lock_class[l] == c);
            }
        }
        assert forall|f: Name| #[trigger] t.funcs.contains_key(f) <==> !no_function(items, f) by {
            if t.funcs.contains_key(f) {
                let i = choose|i: int|
                    0 <= i < items.len() && #[trigger] items[i] == ItemV::Func(t.funcs[f])
                        && t.funcs[f].name == f;
                assert(items[i] is Func && items[i]->Func_0.name == f);
            }
            if !no_function(items, f) {
                let i = choose|i: int|
                    0 <= i < items.len() && (#[trigger] items[i]) is Func && items[i]->Func_0.name
                        == f;
                assert(t.funcs.contains_key(items[i]->Func_0.name));
            }
        }
        if externs_are_proper(items) {
            assert forall|i: int| 0 <= i < t.extern_names.len() implies is_fine(
                t,
                #[trigger] t.extern_names[i],
            ) by {
                let e = t.extern_names[i];
                lemma_extern_names(items, e);
                assert(t.extern_names.contains(e));
                let j = choose|j: int|
                    0 <= j < items.len() && #[trigger] items[j] == (ItemV::Extern {
                        name: e,
                        acquires: t.externs[e],
                    });
                assert(items[j] is Extern);
                assert(is_proper_extern(items, e, t.externs[e]));
            }
        }
        if extern_errors(t, t.extern_names).len() == 0 {
            assert forall|j: int| 0 <= j < items.len() && (#[trigger] items[j]) is Extern implies is_proper_extern(
                items,
                items[j]->Extern_name,
                items[j]->acquires,
            ) by {
                let e = items[j]->Extern_name;
                lemma_extern_names(items, e);
                assert(t.externs.contains_key(e) && t.externs[e] == items[j]->acquires);
                let i = choose|i: int| 0 <= i < t.extern_names.len() && t.extern_names[i] == e;
                assert(is_fine(t, t.extern_names[i]));
                assert(no_function(items, e));
                assert forall|k: int| 0 <= k < items[j]->acquires.len() implies some_lock_of(
                    items,
                    #[trigger] items[j]->acquires[k],
                ) by {
                    assert(is_class(t, t.externs[e][k]));
                }
            }
        }
    }
}

/// How many locks are declared with the class.
pub open spec fn locks_of(items: Seq<ItemV>, class: Name) -> nat
    decreases items.len(),
{
    if items.len() == 0 {
        0
    } else {
        locks_of(items.drop_first(), class) + if items[0] is Lock && items[0]->class == class {
            1nat
        } else {
            0nat
        }
    }
}

proof fn lemma_locks_push(items: Seq<ItemV>, class: Name)
    requires
        items.len() > 0,
    ensures
        locks_of(items, class) == locks_of(items.drop_last(), class) + if items.last() is Lock
            && items.last()->class == class {
            1nat
        } else {
            0nat
        },
        locks_of(items, class) <= items.len(),
    decreases items.len(),
{
    let r = items.drop_first();
    if r.len() > 0 {
        lemma_locks_push(r, class);
        assert(items.drop_last().drop_first() =~= r.drop_last());
        assert(items.drop_last()[0] == items[0]);
    } else {
        assert(items.drop_last() =~= Seq::empty());
        assert(locks_of(r, class) == 0);
    }
}

/// The instances of a class are the locks declared with it, each of them counted.
pub proof fn instances_are_the_declared_locks(
    items: Seq<ItemV>,
    file: Name,
    p: ProgramV,
    class: Name,
)
    requires
        items.len() <= usize::MAX,
        lowering(items, file) == Ok::<ProgramV, Seq<Name>>(p),
    ensures
        p.class_instances.contains_key(class) <==> locks_of(items, class) > 0,
        p.class_instances.contains_key(class) ==> p.class_instances[class] == locks_of(
            items,
            class,
        ),
{
    lemma_instances(items, class);
}

proof fn lemma_instances(items: Seq<ItemV>, class: Name)
    requires
        items.len() <= usize::MAX,
    ensures
        declared(items).class_instances.contains_key(class) <==> locks_of(items, class) > 0,
        declared(items).class_instances.contains_key(class)
            ==> declared(items).class_instances[class] == locks_of(items, class),
    decreases items.len(),
{
    if items.len() > 0 {
        lemma_instances(items.drop_last(), class);
        lemma_locks_push(items, class);
    }
}

/// Locks are numbered in the order of their declarations: of two locks, the one
/// that is declared first has the lesser number.
pub proof fn locks_are_numbered_as_declared(items: Seq<ItemV>, i: int, j: int)
    requires
        items.len() <= usize::MAX,
        no_clash(items),
        0 <= i < j < items.len(),
        items[i] is Lock,
        items[j] is Lock,
    ensures
        ({
            let index = tables_of(items).lock_index;
            &&& index.contains_key(items[i]->Lock_name)
            &&& index.contains_key(items[j]->Lock_name)
            &&& index[items[i]->Lock_name] < index[items[j]->Lock_name]
        }),
{
    lemma_numbered(items, i, j);
}

proof fn lemma_lock_names(items: Seq<ItemV>)
    ensures
        declared(items).lock_names.len() <= items.len(),
        forall|l: Name| #[trigger]
            declared(items).lock_index.contains_key(l) <==> declared(items).lock_class.contains_key(
                l,
            ),
    decreases items.len(),
{
    if items.len() > 0 {
        lemma_lock_names(items.drop_last());
    }
}

proof fn lemma_number_bound(items: Seq<ItemV>, l: Name)
    requires
        items.len() <= usize::MAX,
        declared(items).lock_index.contains_key(l),
    ensures
        declared(items).lock_index[l] < declared(items).lock_names.len(),
    decreases items.len(),
{
    if items.len() > 0 {
        let r = items.drop_last();
        lemma_lock_names(r);
        if declared(r).lock_index.contains_key(l) {
            lemma_number_bound(r, l);
        }
    }
}

proof fn lemma_numbered(items: Seq<ItemV>, i: int, j: int)
    requires
        items.len() <= usize::MAX,
        no_clash(items),
        0 <= i < j < items.len(),
        items[i] is Lock,
        items[j] is Lock,
    ensures
        ({
            let index = declared(items).lock_index;
            &&& index.contains_key(items[i]->Lock_name)
            &&& index.contains_key(items[j]->Lock_name)
            &&& index[items[i]->Lock_name] < index[items[j]->Lock_name]
        }),
    decreases items.len(),
{
    let r = items.drop_last();
    let n = r.len() as int;
    assert(items[n] == items.last());
    assert(no_clash(r)) by {
        assert forall|a: int, b: int| 0 <= a < b < r.len() implies !clash(
            #[trigger] r[a],
            #[trigger] r[b],
        ) by {
            assert(!clash(items[a], items[b]));
        }
    }
    lemma_lock_names(r);
    assert(!clash(items[i], items[j]));
    if j < n {
        assert(r[i] == items[i] && r[j] == items[j]);
        lemma_numbered(r, i, j);
        assert(!clash(items[i], items[n]) && !clash(items[j], items[n]));
    } else {
        lemma_holds(r);
        assert(r[i] == items[i]);
        let a = items[i]->Lock_name;
        assert(declared(r).lock_class.contains_key(a));
        assert(declared(r).lock_index.contains_key(a));
        lemma_number_bound(r, a);
        lemma_seen(r, items[n]);
        assert(!declared(r).lock_class.contains_key(items[n]->Lock_name)) by {
            if is_seen(declared(r), items[n]) {
                let k = choose|k: int| 0 <= k < r.len() && clash(#[trigger] r[k], items[n]);
                assert(clash(items[k], items[n]));
            }
        }
    }
}

}
