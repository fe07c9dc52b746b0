//! Which locks are held: the lock of each guard, the instances of each class, and
//! when the analysis knows them all.

use vstd::prelude::*;

use crate::frontend::all_same;
use crate::lint::accounting::{
    call_is_opaque, call_runs, calls_param, ends_in, ends_unnamed, ends_with_call, first_is_body,
    first_is_param, is_acquire, is_body, is_lock_of, is_section, is_shim, is_unwrap, lemma_concat,
    lemma_found, lemma_map, lemma_push, lemma_sorts, outcome, runs_body, runs_elsewhere, runs_in,
    runs_section, runs_unknown, seen, takes,
};
use crate::lint::classes::{lock_of, moved_through, moves, unknown_lock, CrateV, Tally};
use crate::lint::liveness::{guard_live, is_guard};
use crate::lint::mir::{assigned_to, place_of, Body, Callee, Operand, Place, TermKind};
use crate::lint::scan::{
    body_facts, classes_given, crate_of, first_known, first_unknown, is_doubtful, is_unknown,
    output_of, returns_to, scan_block, scanned, sites_of, taken_into, unknown_held, unwrapped_into,
    unwrapping, with_instances, with_moved, with_returned, with_section, AcquireV, BodyV, ClassIdV,
    FoundV,
};
use crate::text::Name;

verus! {

/// Block `b` takes the lock and returns into the local `to`.
pub open spec fn takes_into(
    bodies: Seq<Body>,
    body: Body,
    b: usize,
    to: usize,
    lock: ClassIdV,
) -> bool {
    exists|c: Callee, args: Seq<Operand>, dest: Place| #[trigger]
        ends_in(body, b, c, args, dest) && is_acquire(c) && is_lock_of(
            crate_of(bodies),
            body,
            args,
            lock,
        ) && dest.local == to
}

/// Block `b` unwraps the result `from` into the local `to`.
pub open spec fn unwraps_into(body: Body, b: usize, from: usize, to: usize) -> bool {
    exists|c: Callee, args: Seq<Operand>, dest: Place| #[trigger]
        ends_in(body, b, c, args, dest) && is_unwrap(c) && args.len() > 0 && dest.local == to
            && match args[0] {
            Operand::Copy(p, _) => p.local == from,
            Operand::Move(p, _) => p.local == from,
            Operand::Const { ty, item } => false,
        }
}

/// Some call gives the local the lock: it takes it, or unwraps the result of
/// taking it.
pub open spec fn gives(bodies: Seq<Body>, body: Body, to: usize, lock: ClassIdV) -> bool {
    ||| exists|b: usize| #[trigger] takes_into(bodies, body, b, to, lock)
    ||| exists|a: usize, b: usize, from: usize|
        #[trigger] takes_into(bodies, body, a, from, lock) && #[trigger] unwraps_into(
            body,
            b,
            from,
            to,
        )
}

/// The guard, or something that it was moved out of, is given locks of two
/// classes.
pub open spec fn is_torn(bodies: Seq<Body>, body: Body, l: usize) -> bool {
    exists|m: usize, n: usize, x: ClassIdV, y: ClassIdV|
        moved_through(body, l, 8).contains(m) && moved_through(
            body,
            l,
            8,
        ).contains(n) && #[trigger] gives(bodies, body, m, x) && #[trigger] gives(
            bodies,
            body,
            n,
            y,
        ) && x.class != y.class
}

/// The lock of the guard is known.
pub open spec fn is_settled(bodies: Seq<Body>, k: int, l: usize) -> bool {
    seen(bodies, k).locks.contains_key(l) && !is_torn(bodies, bodies[k], l)
}

/// Why the class of the lock that block `b` takes may not be its only one.
pub open spec fn lock_reason(bodies: Seq<Body>, body: Body, b: usize) -> Option<Name> {
    match body.blocks@[b as int].terminator.kind {
        TermKind::Call { callee: Some(c), args, dest } => if !is_acquire(c) {
            None
        } else if args@.len() > 0 {
            lock_of(crate_of(bodies), body, args@[0]).reason
        } else {
            unknown_lock().reason
        },
        _ => None,
    }
}

/// Everything is known at the end of block `b` of body `k`: the class of the lock
/// that it takes, and the lock of every guard that is live at a call that counts.
pub open spec fn is_clear(bodies: Seq<Body>, k: int, b: usize) -> bool {
    &&& lock_reason(bodies, bodies[k], b) is None
    &&& ends_with_call(bodies, k, b) && !runs_elsewhere(bodies, k, b) ==> forall|l: usize|
        #[trigger] guard_live(bodies[k], seen(bodies, k).found.drops, b, l) ==> is_settled(
            bodies,
            k,
            l,
        )
}

proof fn lemma_instance_list(m: Map<Name, Set<Name>>, q: Seq<AcquireV>, class: Name, id: Name)
    ensures
        has_instance(with_instances(m, q), class, id) <==> has_instance(m, class, id)
            || exists|a: AcquireV| #[trigger]
            q.contains(a) && a.lock.class == class && a.lock.id == id,
    decreases q.len(),
{
    if q.len() > 0 {
        let r = q.drop_last();
        lemma_instance_list(m, r, class, id);
        lemma_push(r, q.last());
        assert(q =~= r.push(q.last()));
        assert(q.contains(q.last()));
        if exists|a: AcquireV| #[trigger] q.contains(a) && a.lock.class == class && a.lock.id == id {
            let a = choose|a: AcquireV| #[trigger]
                q.contains(a) && a.lock.class == class && a.lock.id == id;
            assert(r.contains(a) || a == q.last());
        }
        if exists|a: AcquireV| #[trigger] r.contains(a) && a.lock.class == class && a.lock.id == id {
            let a = choose|a: AcquireV| #[trigger]
                r.contains(a) && a.lock.class == class && a.lock.id == id;
            assert(q.contains(a));
        }
    }
}

/// The class has the instance.
pub open spec fn has_instance(m: Map<Name, Set<Name>>, class: Name, id: Name) -> bool {
    m.contains_key(class) && m[class].contains(id)
}

proof fn lemma_sections(m: Map<Name, Set<Name>>, n: nat, class: Name, id: Name)
    ensures
        has_instance(with_section(m, n), class, id) <==> has_instance(m, class, id) || n > 0
            && class == "<critical-section>"@ && id == "<global>"@,
    decreases n,
{
    if n > 0 {
        lemma_sections(m, (n - 1) as nat, class, id);
    }
}

/// Body `k` has the instance.
pub open spec fn is_instance_of(bodies: Seq<Body>, k: int, class: Name, id: Name) -> bool {
    ||| exists|b: usize, guard: Option<usize>| #[trigger]
        takes(bodies, bodies[k], b, ClassIdV { class, id }, guard)
    ||| class == "<critical-section>"@ && id == "<global>"@ && exists|b: usize, t: Name| #[trigger]
        runs_section(bodies[k], b, t)
}

spec fn instance_from(x: BodyV, class: Name, id: Name) -> bool {
    ||| exists|a: AcquireV| #[trigger]
        x.found.acquires.contains(a) && a.lock.class == class && a.lock.id == id
    ||| x.found.cs_enters.len() > 0 && class == "<critical-section>"@ && id == "<global>"@
}

proof fn lemma_instances(cr: CrateV, q: Seq<Body>, class: Name, id: Name)
    ensures
        has_instance(output_of(cr, q).class_instances, class, id) <==> exists|k: int|
            0 <= k < q.len() && #[trigger] instance_from(body_facts(cr, q[k]), class, id),
    decreases q.len(),
{
    if q.len() > 0 {
        let r = q.drop_last();
        let n = r.len() as int;
        let x = body_facts(cr, q.last());
        let before = output_of(cr, r).class_instances;
        lemma_instances(cr, r, class, id);
        lemma_instance_list(before, x.found.acquires, class, id);
        lemma_sections(
            with_instances(before, x.found.acquires),
            x.found.cs_enters.len(),
            class,
            id,
        );
        if exists|k: int|
            0 <= k < r.len() && #[trigger] instance_from(body_facts(cr, r[k]), class, id) {
            let k = choose|k: int|
                0 <= k < r.len() && #[trigger] instance_from(body_facts(cr, r[k]), class, id);
            assert(instance_from(body_facts(cr, q[k]), class, id));
        }
        if exists|k: int|
            0 <= k < q.len() && #[trigger] instance_from(body_facts(cr, q[k]), class, id) {
            let k = choose|k: int|
                0 <= k < q.len() && #[trigger] instance_from(body_facts(cr, q[k]), class, id);
            if k < n {
                assert(instance_from(body_facts(cr, r[k]), class, id));
            }
        }
        if instance_from(x, class, id) {
            assert(instance_from(body_facts(cr, q[n]), class, id));
        }
    }
}

/// The instances of a class are the identities under which its locks are taken,
/// and the critical section has one.
pub proof fn instances_are_those_taken(bodies: Seq<Body>, class: Name, id: Name)
    ensures
        has_instance(outcome(bodies).class_instances, class, id) <==> exists|k: int|
            0 <= k < bodies.len() && #[trigger] is_instance_of(bodies, k, class, id),
{
    let cr = crate_of(bodies);
    lemma_instances(cr, bodies, class, id);
    assert forall|k: int| 0 <= k < bodies.len() implies instance_from(
        body_facts(cr, #[trigger] bodies[k]),
        class,
        id,
    ) == is_instance_of(bodies, k, class, id) by {
        let x = body_facts(cr, bodies[k]);
        let n = bodies[k].blocks@.len();
        lemma_found(bodies, bodies[k], n);
        let lock = ClassIdV { class, id };
        if exists|a: AcquireV| #[trigger]
            x.found.acquires.contains(a) && a.lock.class == class && a.lock.id == id {
            let a = choose|a: AcquireV| #[trigger]
                x.found.acquires.contains(a) && a.lock.class == class && a.lock.id == id;
            assert(a.lock == lock);
            assert(takes(bodies, bodies[k], a.block, lock, a.guard));
        }
        if exists|b: usize, guard: Option<usize>| #[trigger]
            takes(bodies, bodies[k], b, lock, guard) {
            let (b, guard) = choose|b: usize, guard: Option<usize>| #[trigger]
                takes(bodies, bodies[k], b, lock, guard);
            let a = AcquireV { block: b, lock, guard };
            assert(x.found.acquires.contains(a));
        }
        if x.found.cs_enters.len() > 0 {
            let e = x.found.cs_enters[0];
            assert(x.found.cs_enters.contains(e));
            assert(runs_section(bodies[k], e.0, e.1));
        }
        if exists|b: usize, t: Name| #[trigger] runs_section(bodies[k], b, t) {
            let (b, t) = choose|b: usize, t: Name| #[trigger] runs_section(bodies[k], b, t);
            assert(x.found.cs_enters.contains((b, t)));
        }
    }
    if exists|k: int|
        0 <= k < bodies.len() && #[trigger] instance_from(body_facts(cr, bodies[k]), class, id) {
        let k = choose|k: int|
            0 <= k < bodies.len() && #[trigger] instance_from(body_facts(cr, bodies[k]), class, id);
        assert(is_instance_of(bodies, k, class, id));
    }
    if exists|k: int| 0 <= k < bodies.len() && #[trigger] is_instance_of(bodies, k, class, id) {
        let k = choose|k: int|
            0 <= k < bodies.len() && #[trigger] is_instance_of(bodies, k, class, id);
        assert(instance_from(body_facts(cr, bodies[k]), class, id));
    }
}

/// Some lock of the class is taken into the local.
spec fn class_taken(bodies: Seq<Body>, body: Body, to: usize, class: Name) -> bool {
    exists|b: usize, lock: ClassIdV| #[trigger]
        takes_into(bodies, body, b, to, lock) && lock.class == class
}

/// Some lock of the class is given to the local.
spec fn class_given(bodies: Seq<Body>, body: Body, to: usize, class: Name) -> bool {
    exists|lock: ClassIdV| #[trigger] gives(bodies, body, to, lock) && lock.class == class
}

proof fn lemma_taken_list(body: Body, q: Seq<AcquireV>, to: usize, class: Name)
    ensures
        taken_into(body, q, to).contains(class) <==> exists|a: AcquireV| #[trigger]
            q.contains(a) && returns_to(body, a.block) == Some(to) && a.lock.class == class,
    decreases q.len(),
{
    if q.len() > 0 {
        let r = q.drop_last();
        lemma_taken_list(body, r, to, class);
        lemma_push(taken_into(body, r, to), q.last().lock.class);
        lemma_push(r, q.last());
        assert(q =~= r.push(q.last()));
        assert(q.contains(q.last()));
        if taken_into(body, r, to).contains(class) {
            let a = choose|a: AcquireV| #[trigger]
                r.contains(a) && returns_to(body, a.block) == Some(to) && a.lock.class == class;
            assert(q.contains(a));
        }
        if exists|a: AcquireV| #[trigger]
            q.contains(a) && returns_to(body, a.block) == Some(to) && a.lock.class == class {
            let a = choose|a: AcquireV| #[trigger]
                q.contains(a) && returns_to(body, a.block) == Some(to) && a.lock.class == class;
            assert(r.contains(a) || a == q.last());
        }
    }
}

/// What is taken into a local is what the calls take into it.
proof fn lemma_taken(bodies: Seq<Body>, body: Body, to: usize, class: Name)
    ensures
        ({
            let q = scanned(crate_of(bodies), body, body.blocks@.len()).acquires;
            taken_into(body, q, to).contains(class) <==> class_taken(bodies, body, to, class)
        }),
{
    let n = body.blocks@.len();
    let q = scanned(crate_of(bodies), body, n).acquires;
    lemma_found(bodies, body, n);
    lemma_taken_list(body, q, to, class);
    if exists|a: AcquireV| #[trigger]
        q.contains(a) && returns_to(body, a.block) == Some(to) && a.lock.class == class {
        let a = choose|a: AcquireV| #[trigger]
            q.contains(a) && returns_to(body, a.block) == Some(to) && a.lock.class == class;
        assert(takes(bodies, body, a.block, a.lock, a.guard));
        assert(takes_into(bodies, body, a.block, to, a.lock));
    }
    if class_taken(bodies, body, to, class) {
        let (b, lock) = choose|b: usize, lock: ClassIdV| #[trigger]
            takes_into(bodies, body, b, to, lock) && lock.class == class;
        let guard = if is_guard(body, to) {
            Some(to)
        } else {
            None
        };
        assert(takes(bodies, body, b, lock, guard));
        let a = AcquireV { block: b, lock, guard };
        assert(q.contains(a));
        assert(returns_to(body, a.block) == Some(to));
    }
}

proof fn lemma_unwrapping(body: Body, b: usize)
    requires
        b < body.blocks@.len(),
    ensures
        forall|from: usize, to: usize| #[trigger]
            unwraps_into(body, b, from, to) <==> unwrapping(body.blocks@[b as int]) == Some(
                (to, from),
            ),
{
    match body.blocks@[b as int].terminator.kind {
        TermKind::Call { callee: Some(c), args, dest } => {
            lemma_sorts(c);
            assert(ends_in(body, b, c, args@, dest));
        },
        _ => {},
    }
}

/// One of the first `n` blocks unwraps a result that a lock of the class was
/// taken into.
spec fn class_unwrapped(bodies: Seq<Body>, body: Body, n: int, to: usize, class: Name) -> bool {
    exists|b: usize, from: usize|
        b < n && #[trigger] unwraps_into(body, b, from, to) && class_taken(
            bodies,
            body,
            from,
            class,
        )
}

proof fn lemma_unwrapped(bodies: Seq<Body>, body: Body, n: int, to: usize, class: Name)
    requires
        0 <= n <= body.blocks@.len(),
    ensures
        ({
            let q = scanned(crate_of(bodies), body, body.blocks@.len()).acquires;
            unwrapped_into(body, q, n, to).contains(class) <==> class_unwrapped(
                bodies,
                body,
                n,
                to,
                class,
            )
        }),
    decreases n,
{
    assert(body.blocks.len() == body.blocks@.len());
    let q = scanned(crate_of(bodies), body, body.blocks@.len()).acquires;
    if n > 0 {
        let m = n - 1;
        lemma_unwrapped(bodies, body, m, to, class);
        lemma_unwrapping(body, m as usize);
        let before = unwrapped_into(body, q, m, to);
        if class_unwrapped(bodies, body, m, to, class) {
            let (b, from) = choose|b: usize, from: usize|
                b < m && #[trigger] unwraps_into(body, b, from, to) && class_taken(
                    bodies,
                    body,
                    from,
                    class,
                );
            assert(b < n && unwraps_into(body, b, from, to));
        }
        match unwrapping(body.blocks@[m]) {
            Some((t, from)) => {
                lemma_taken(bodies, body, from, class);
                lemma_concat(before, taken_into(body, q, from));
                assert(unwraps_into(body, m as usize, from, t));
            },
            None => {},
        }
        if class_unwrapped(bodies, body, n, to, class) {
            let (b, from) = choose|b: usize, from: usize|
                b < n && #[trigger] unwraps_into(body, b, from, to) && class_taken(
                    bodies,
                    body,
                    from,
                    class,
                );
            if b < m {
                assert(class_unwrapped(bodies, body, m, to, class));
            }
        }
    }
}

/// The classes that the calls give the locals.
proof fn lemma_given(bodies: Seq<Body>, body: Body, locals: Seq<usize>, class: Name)
    ensures
        ({
            let q = scanned(crate_of(bodies), body, body.blocks@.len()).acquires;
            classes_given(body, q, locals).contains(class) <==> exists|m: usize|
                locals.contains(m) && #[trigger] class_given(bodies, body, m, class)
        }),
    decreases locals.len(),
{
    let n = body.blocks@.len() as int;
    let q = scanned(crate_of(bodies), body, body.blocks@.len()).acquires;
    if locals.len() > 0 {
        let r = locals.drop_last();
        let l = locals.last();
        lemma_given(bodies, body, r, class);
        let before = classes_given(body, q, r);
        lemma_taken(bodies, body, l, class);
        lemma_unwrapped(bodies, body, n, l, class);
        lemma_concat(before, taken_into(body, q, l));
        lemma_concat(before + taken_into(body, q, l), unwrapped_into(body, q, n, l));
        assert(class_given(bodies, body, l, class) <==> class_taken(bodies, body, l, class)
            || class_unwrapped(bodies, body, n, l, class)) by {
            if class_given(bodies, body, l, class) {
                let lock = choose|lock: ClassIdV| #[trigger]
                    gives(bodies, body, l, lock) && lock.class == class;
                if exists|b: usize| #[trigger] takes_into(bodies, body, b, l, lock) {
                    let b = choose|b: usize| #[trigger] takes_into(bodies, body, b, l, lock);
                    assert(takes_into(bodies, body, b, l, lock) && lock.class == class);
                } else {
                    let (a, b, from) = choose|a: usize, b: usize, from: usize|
                        #[trigger] takes_into(bodies, body, a, from, lock)
                            && #[trigger] unwraps_into(body, b, from, l);
                    assert(takes_into(bodies, body, a, from, lock) && lock.class == class);
                    assert(class_taken(bodies, body, from, class));
                    assert(unwraps_into(body, b, from, l));
                }
            }
            if class_taken(bodies, body, l, class) {
                let (b, lock) = choose|b: usize, lock: ClassIdV| #[trigger]
                    takes_into(bodies, body, b, l, lock) && lock.class == class;
                assert(gives(bodies, body, l, lock));
            }
            if class_unwrapped(bodies, body, n, l, class) {
                let (b, from) = choose|b: usize, from: usize|
                    b < n && #[trigger] unwraps_into(body, b, from, l) && class_taken(
                        bodies,
                        body,
                        from,
                        class,
                    );
                let (a, lock) = choose|a: usize, lock: ClassIdV| #[trigger]
                    takes_into(bodies, body, a, from, lock) && lock.class == class;
                assert(gives(bodies, body, l, lock));
            }
        }
        lemma_push(r, l);
        assert(locals =~= r.push(l));
        assert(locals.contains(l));
        if exists|m: usize| r.contains(m) && #[trigger] class_given(bodies, body, m, class) {
            let m = choose|m: usize|
                r.contains(m) && #[trigger] class_given(bodies, body, m, class);
            assert(locals.contains(m));
        }
    }
}

/// The guard is doubtful exactly if its definitions give it locks of two classes.
proof fn lemma_torn(bodies: Seq<Body>, body: Body, l: usize)
    ensures
        is_doubtful(
            body,
            scanned(crate_of(bodies), body, body.blocks@.len()).acquires,
            l,
        ) == is_torn(bodies, body, l),
{
    let q = scanned(crate_of(bodies), body, body.blocks@.len()).acquires;
    let chain = moved_through(body, l, 8);
    let given = classes_given(body, q, chain);
    if !all_same(given) {
        let i = choose|i: int| 0 <= i < given.len() && #[trigger] given[i] != given[0];
        let c = given[i];
        let d = given[0];
        assert(given.contains(c) && given.contains(d));
        lemma_given(bodies, body, chain, c);
        lemma_given(bodies, body, chain, d);
        let m = choose|m: usize| chain.contains(m) && #[trigger] class_given(bodies, body, m, c);
        let n = choose|n: usize| chain.contains(n) && #[trigger] class_given(bodies, body, n, d);
        let x = choose|x: ClassIdV| #[trigger] gives(bodies, body, m, x) && x.class == c;
        let y = choose|y: ClassIdV| #[trigger] gives(bodies, body, n, y) && y.class == d;
        assert(gives(bodies, body, m, x) && gives(bodies, body, n, y));
    }
    if is_torn(bodies, body, l) {
        let (m, n, x, y) = choose|m: usize, n: usize, x: ClassIdV, y: ClassIdV|
            chain.contains(m) && chain.contains(n) && #[trigger] gives(bodies, body, m, x)
                && #[trigger] gives(bodies, body, n, y) && x.class != y.class;
        assert(class_given(bodies, body, m, x.class));
        assert(class_given(bodies, body, n, y.class));
        lemma_given(bodies, body, chain, x.class);
        lemma_given(bodies, body, chain, y.class);
        let i = choose|i: int| 0 <= i < given.len() && given[i] == x.class;
        let j = choose|j: int| 0 <= j < given.len() && given[j] == y.class;
        assert(given[i] != given[j]);
    }
}

proof fn lemma_reason(bodies: Seq<Body>, body: Body, n: nat)
    requires
        n <= body.blocks@.len(),
    ensures
        scanned(crate_of(bodies), body, n).reason is Some <==> exists|b: usize|
            b < n && #[trigger] lock_reason(bodies, body, b) is Some,
    decreases n,
{
    assert(body.blocks.len() == body.blocks@.len());
    if n > 0 {
        let m = (n - 1) as nat;
        let b = m as usize;
        lemma_reason(bodies, body, m);
        match body.blocks@[b as int].terminator.kind {
            TermKind::Call { callee: Some(c), args, dest } => {
                lemma_sorts(c);
            },
            _ => {},
        }
        if exists|a: usize| a < m && #[trigger] lock_reason(bodies, body, a) is Some {
            let a = choose|a: usize| a < m && #[trigger] lock_reason(bodies, body, a) is Some;
            assert(a < n && lock_reason(bodies, body, a) is Some);
        }
        if exists|a: usize| a < n && #[trigger] lock_reason(bodies, body, a) is Some {
            let a = choose|a: usize| a < n && #[trigger] lock_reason(bodies, body, a) is Some;
            if a < m {
                assert(scanned(crate_of(bodies), body, m).reason is Some);
            } else {
                assert(a == b);
            }
        }
        if lock_reason(bodies, body, b) is Some {
            assert(b < n);
        }
    }
}

/// The sites of a body are the calls that count.
proof fn lemma_sites(bodies: Seq<Body>, k: int, b: usize)
    requires
        0 <= k < bodies.len(),
    ensures
        sites_of(seen(bodies, k).found).contains(b) <==> ends_with_call(bodies, k, b)
            && !runs_elsewhere(bodies, k, b),
{
    let body = bodies[k];
    let f = seen(bodies, k).found;
    lemma_found(bodies, body, body.blocks@.len());
    let block = |a: AcquireV| a.block;
    let first = |e: (usize, Name)| e.0;
    let at = |e: (usize, usize)| e.0;
    let q1 = f.acquires.map_values(block);
    let q2 = f.local_calls.map_values(first);
    let q3 = f.param_calls.map_values(at);
    let q4 = f.cs_enters.map_values(first);
    lemma_map(f.acquires, block);
    lemma_map(f.local_calls, first);
    lemma_map(f.param_calls, at);
    lemma_map(f.cs_enters, first);
    lemma_concat(q1, q2);
    lemma_concat(q1 + q2, q3);
    lemma_concat(q1 + q2 + q3, q4);
    lemma_concat(q1 + q2 + q3 + q4, f.opaque_calls);
    assert(sites_of(f) == q1 + q2 + q3 + q4 + f.opaque_calls);
    if q1.contains(b) {
        let a = choose|a: AcquireV| f.acquires.contains(a) && b == #[trigger] block(a);
        assert(takes(bodies, body, b, a.lock, a.guard));
        let (c, args, dest) = choose|c: Callee, args: Seq<Operand>, dest: Place| #[trigger]
            ends_in(body, b, c, args, dest) && is_acquire(c);
        lemma_sorts(c);
    }
    if q2.contains(b) {
        let e = choose|e: (usize, Name)| f.local_calls.contains(e) && b == #[trigger] first(e);
        assert(runs_body(bodies, body, b, e.1));
        let (c, args, dest) = choose|c: Callee, args: Seq<Operand>, dest: Place| #[trigger]
            ends_in(body, b, c, args, dest) && call_runs(bodies, c, args, e.1);
        lemma_sorts(c);
    }
    if q3.contains(b) {
        let e = choose|e: (usize, usize)| f.param_calls.contains(e) && b == #[trigger] at(e);
        assert(calls_param(body, b, e.1));
        let (c, args, dest) = choose|c: Callee, args: Seq<Operand>, dest: Place| #[trigger]
            ends_in(body, b, c, args, dest) && is_shim(c);
        lemma_sorts(c);
    }
    if q4.contains(b) {
        let e = choose|e: (usize, Name)| f.cs_enters.contains(e) && b == #[trigger] first(e);
        assert(runs_section(body, b, e.1));
        let (c, args, dest) = choose|c: Callee, args: Seq<Operand>, dest: Place| #[trigger]
            ends_in(body, b, c, args, dest) && is_section(c);
        lemma_sorts(c);
    }
    if f.opaque_calls.contains(b) {
        assert(runs_unknown(bodies, body, b));
        if !ends_unnamed(body, b) {
            let (c, args, dest) = choose|c: Callee, args: Seq<Operand>, dest: Place| #[trigger]
                ends_in(body, b, c, args, dest) && call_is_opaque(bodies, body, c, args);
            lemma_sorts(c);
        }
    }
    if ends_with_call(bodies, k, b) && !runs_elsewhere(bodies, k, b) {
        match body.blocks@[b as int].terminator.kind {
            TermKind::Call { callee: Some(c), args, dest } => {
                let args = args@;
                assert(ends_in(body, b, c, args, dest));
                if is_acquire(c) {
                    let known = if args.len() > 0 {
                        lock_of(crate_of(bodies), body, args[0])
                    } else {
                        unknown_lock()
                    };
                    let lock = ClassIdV { class: known.class, id: known.id };
                    let guard = if is_guard(body, dest.local) {
                        Some(dest.local)
                    } else {
                        None
                    };
                    let a = AcquireV { block: b, lock, guard };
                    assert(takes(bodies, body, b, lock, guard));
                    assert(f.acquires.contains(a));
                    assert(block(a) == b);
                } else if call_is_opaque(bodies, body, c, args) {
                    assert(runs_unknown(bodies, body, b));
                } else if is_section(c) {
                    let t = choose|t: Name| #[trigger] is_body(args[0], t);
                    assert(runs_section(body, b, t));
                    assert(f.cs_enters.contains((b, t)));
                    assert(first((b, t)) == b);
                } else if is_shim(c) && !first_is_body(args) {
                    let p = choose|p: usize| #[trigger] first_is_param(body, args, p);
                    assert(calls_param(body, b, p));
                    assert(f.param_calls.contains((b, p)));
                    assert(at((b, p)) == b);
                } else {
                    let t = if is_shim(c) {
                        choose|t: Name| #[trigger] is_body(args[0], t)
                    } else if runs_in(bodies, c) {
                        (c.target->0)@
                    } else {
                        c.path@
                    };
                    assert(call_runs(bodies, c, args, t));
                    assert(runs_body(bodies, body, b, t));
                    assert(f.local_calls.contains((b, t)));
                    assert(first((b, t)) == b);
                }
            },
            _ => {
                assert(runs_unknown(bodies, body, b));
            },
        }
    }
}

proof fn lemma_first_unknown(x: BodyV, b: usize, n: nat)
    requires
        n <= usize::MAX,
    ensures
        first_unknown(x.body, x.found.drops, x.found.acquires, x.locks, b, n) is Some
            <==> exists|l: usize|
            l < n && #[trigger] is_unknown(
                x.body,
                x.found.drops,
                x.found.acquires,
                x.locks,
                b,
                l,
            ),
    decreases n,
{
    if n > 0 {
        let m = (n - 1) as nat;
        lemma_first_unknown(x, b, m);
        if exists|l: usize|
            l < n && #[trigger] is_unknown(
                x.body,
                x.found.drops,
                x.found.acquires,
                x.locks,
                b,
                l,
            ) {
            let l = choose|l: usize|
                l < n && #[trigger] is_unknown(
                    x.body,
                    x.found.drops,
                    x.found.acquires,
                    x.locks,
                    b,
                    l,
                );
            assert(l < m || l == m as usize);
        }
    }
}

/// At the end of block `b` some guard is live whose lock is not known.
spec fn is_blind(x: BodyV, b: usize) -> bool {
    exists|l: usize| #[trigger]
        is_unknown(x.body, x.found.drops, x.found.acquires, x.locks, b, l)
}

proof fn lemma_unknown_held(x: BodyV, sites: Seq<usize>)
    ensures
        unknown_held(x.body, x.found.drops, x.found.acquires, x.locks, sites) is Some
            <==> exists|b: usize| sites.contains(b) && #[trigger] is_blind(x, b),
    decreases sites.len(),
{
    assert(x.body.locals.len() == x.body.locals@.len());
    if sites.len() > 0 {
        let r = sites.drop_last();
        let last = sites.last();
        let n = x.body.locals@.len();
        lemma_unknown_held(x, r);
        lemma_first_unknown(x, last, n);
        lemma_push(r, last);
        assert(sites =~= r.push(last));
        assert(sites.contains(last));
        if is_blind(x, last) {
            let l = choose|l: usize| #[trigger]
                is_unknown(x.body, x.found.drops, x.found.acquires, x.locks, last, l);
            assert(l < n);
        }
        if exists|b: usize| r.contains(b) && #[trigger] is_blind(x, b) {
            let b = choose|b: usize| r.contains(b) && #[trigger] is_blind(x, b);
            assert(sites.contains(b));
        }
        if exists|b: usize| sites.contains(b) && #[trigger] is_blind(x, b) {
            let b = choose|b: usize| sites.contains(b) && #[trigger] is_blind(x, b);
            assert(r.contains(b) || b == last);
        }
    }
}

/// The body gives a reason why the analysis is incomplete.
spec fn gives_reason(x: BodyV) -> bool {
    x.found.reason is Some || unknown_held(
        x.body,
        x.found.drops,
        x.found.acquires,
        x.locks,
        sites_of(x.found),
    ) is Some
}

proof fn lemma_incomplete(cr: CrateV, q: Seq<Body>)
    ensures
        output_of(cr, q).incomplete is Some <==> exists|k: int|
            0 <= k < q.len() && #[trigger] gives_reason(body_facts(cr, q[k])),
    decreases q.len(),
{
    if q.len() > 0 {
        let r = q.drop_last();
        let n = r.len() as int;
        lemma_incomplete(cr, r);
        if exists|k: int| 0 <= k < r.len() && #[trigger] gives_reason(body_facts(cr, r[k])) {
            let k = choose|k: int| 0 <= k < r.len() && #[trigger] gives_reason(body_facts(cr, r[k]));
            assert(gives_reason(body_facts(cr, q[k])));
        }
        if exists|k: int| 0 <= k < q.len() && #[trigger] gives_reason(body_facts(cr, q[k])) {
            let k = choose|k: int| 0 <= k < q.len() && #[trigger] gives_reason(body_facts(cr, q[k]));
            if k < n {
                assert(gives_reason(body_facts(cr, r[k])));
            }
        }
        if gives_reason(body_facts(cr, q.last())) {
            assert(gives_reason(body_facts(cr, q[n])));
        }
    }
}

/// Block `b` is one of body `k`.
pub open spec fn is_block(bodies: Seq<Body>, k: int, b: usize) -> bool {
    0 <= k < bodies.len() && b < bodies[k].blocks@.len()
}

/// Nothing goes missing in silence: the front end reports nothing exactly if
/// every lock that is taken has one class, and every guard that is live at a call
/// that counts is of a known lock.
pub proof fn silent_iff_everything_is_known(bodies: Seq<Body>)
    ensures
        outcome(bodies).incomplete is None <==> forall|k: int, b: usize|
            is_block(bodies, k, b) ==> #[trigger] is_clear(bodies, k, b),
{
    let cr = crate_of(bodies);
    lemma_incomplete(cr, bodies);
    assert forall|k: int| 0 <= k < bodies.len() implies (#[trigger] gives_reason(
        body_facts(cr, bodies[k]),
    ) <==> exists|b: usize| is_block(bodies, k, b) && !#[trigger] is_clear(bodies, k, b)) by {
        lemma_gives_reason(bodies, k);
    }
    if outcome(bodies).incomplete is Some {
        let k = choose|k: int|
            0 <= k < bodies.len() && #[trigger] gives_reason(body_facts(cr, bodies[k]));
        let b = choose|b: usize| is_block(bodies, k, b) && !#[trigger] is_clear(bodies, k, b);
        assert(is_block(bodies, k, b) && !is_clear(bodies, k, b));
    }
    if !forall|k: int, b: usize| is_block(bodies, k, b) ==> #[trigger] is_clear(bodies, k, b) {
        let (k, b) = choose|k: int, b: usize|
            is_block(bodies, k, b) && !#[trigger] is_clear(bodies, k, b);
        assert(gives_reason(body_facts(cr, bodies[k])));
    }
}

proof fn lemma_gives_reason(bodies: Seq<Body>, k: int)
    requires
        0 <= k < bodies.len(),
    ensures
        gives_reason(seen(bodies, k)) <==> exists|b: usize|
            is_block(bodies, k, b) && !#[trigger] is_clear(bodies, k, b),
{
    let body = bodies[k];
    let x = seen(bodies, k);
    let n = body.blocks@.len();
    let sites = sites_of(x.found);
    lemma_reason(bodies, body, n);
    lemma_unknown_held(x, sites);
    if x.found.reason is Some {
        let b = choose|b: usize| b < n && #[trigger] lock_reason(bodies, body, b) is Some;
        assert(is_block(bodies, k, b) && !is_clear(bodies, k, b));
    }
    if exists|b: usize| sites.contains(b) && #[trigger] is_blind(x, b) {
        let b = choose|b: usize| sites.contains(b) && #[trigger] is_blind(x, b);
        lemma_sites(bodies, k, b);
        let l = choose|l: usize| #[trigger]
            is_unknown(x.body, x.found.drops, x.found.acquires, x.locks, b, l);
        lemma_torn(bodies, body, l);
        assert(guard_live(body, x.found.drops, b, l) && !is_settled(bodies, k, l));
        assert(is_block(bodies, k, b) && !is_clear(bodies, k, b));
    }
    if exists|b: usize| is_block(bodies, k, b) && !#[trigger] is_clear(bodies, k, b) {
        let b = choose|b: usize| is_block(bodies, k, b) && !#[trigger] is_clear(bodies, k, b);
        if lock_reason(bodies, body, b) is None {
            lemma_sites(bodies, k, b);
            let l = choose|l: usize|
                #[trigger] guard_live(body, x.found.drops, b, l) && !is_settled(bodies, k, l);
            lemma_torn(bodies, body, l);
            assert(is_unknown(x.body, x.found.drops, x.found.acquires, x.locks, b, l));
            assert(is_blind(x, b));
        }
    }
}

/// The lock reaches the guard: a call returns the guard, or unwraps it from the
/// result of a call in an earlier block.
pub open spec fn reaches(bodies: Seq<Body>, body: Body, to: usize, lock: ClassIdV) -> bool {
    ||| is_guard(body, to) && exists|b: usize| #[trigger] takes_into(bodies, body, b, to, lock)
    ||| exists|a: usize, b: usize, from: usize|
        a < b && #[trigger] takes_into(bodies, body, a, from, lock) && #[trigger] unwraps_into(
            body,
            b,
            from,
            to,
        )
}

/// Some lock reaches the guard.
pub open spec fn is_reached(bodies: Seq<Body>, body: Body, to: usize) -> bool {
    exists|lock: ClassIdV| #[trigger] reaches(bodies, body, to, lock)
}

/// The local that the value in `l` was moved out of, `n` moves back.
pub open spec fn moved_back(body: Body, l: usize, n: nat) -> Option<usize>
    decreases n,
{
    if n == 0 {
        Some(l)
    } else {
        match moves(assigned_to(body, l)) {
            Tally::One(from) => moved_back(body, from, (n - 1) as nat),
            _ => None,
        }
    }
}

/// The value in `l` was moved out of `m`, or is still there.
pub open spec fn came_from(body: Body, l: usize, m: usize) -> bool {
    exists|n: nat| #[trigger] moved_back(body, l, n) == Some(m)
}

/// A lock that was taken into the result before block `n`.
spec fn result_known(bodies: Seq<Body>, body: Body, n: nat, r: usize, lock: ClassIdV) -> bool {
    exists|b: usize| b < n && #[trigger] takes_into(bodies, body, b, r, lock)
}

/// A lock that was unwrapped into the local before block `n`.
spec fn unwrapped_known(bodies: Seq<Body>, body: Body, n: nat, to: usize, lock: ClassIdV) -> bool {
    exists|a: usize, b: usize, from: usize|
        a < b < n && #[trigger] takes_into(bodies, body, a, from, lock) && #[trigger] unwraps_into(
            body,
            b,
            from,
            to,
        )
}

/// The call at the end of a block, by what it does to results and guards.
proof fn lemma_block_locks(bodies: Seq<Body>, body: Body, f: FoundV, b: usize)
    requires
        b < body.blocks@.len(),
    ensures
        ({
            let g = scan_block(crate_of(bodies), body, f, b);
            &&& forall|r: usize| #[trigger]
                g.result_class.contains_key(r) ==> f.result_class.contains_key(r)
                    && g.result_class[r] == f.result_class[r] || takes_into(
                    bodies,
                    body,
                    b,
                    r,
                    g.result_class[r],
                )
            &&& forall|r: usize, lock: ClassIdV| #[trigger]
                takes_into(bodies, body, b, r, lock) ==> g.result_class.contains_key(r)
            &&& forall|r: usize| #[trigger]
                f.result_class.contains_key(r) ==> g.result_class.contains_key(r)
            &&& forall|l: usize| #[trigger]
                g.guard_class.contains_key(l) ==> f.guard_class.contains_key(l)
                    && g.guard_class[l] == f.guard_class[l] || exists|from: usize|
                    f.result_class.contains_key(from) && g.guard_class[l]
                        == f.result_class[from] && #[trigger] unwraps_into(body, b, from, l)
            &&& forall|from: usize, l: usize| #[trigger]
                unwraps_into(body, b, from, l) && f.result_class.contains_key(from)
                    ==> g.guard_class.contains_key(l)
            &&& forall|l: usize| #[trigger]
                f.guard_class.contains_key(l) ==> g.guard_class.contains_key(l)
        }),
{
    match body.blocks@[b as int].terminator.kind {
        TermKind::Call { callee: Some(c), args, dest } => {
            lemma_sorts(c);
            lemma_unwrapping(body, b);
            assert(ends_in(body, b, c, args@, dest));
            let known = if args@.len() > 0 {
                lock_of(crate_of(bodies), body, args@[0])
            } else {
                unknown_lock()
            };
            let lock = ClassIdV { class: known.class, id: known.id };
            if is_acquire(c) {
                assert(takes_into(bodies, body, b, dest.local, lock));
            }
            if is_unwrap(c) && args@.len() > 0 && place_of(args@[0]) is Some {
                assert(unwraps_into(body, b, (place_of(args@[0])->0).local, dest.local));
            }
        },
        _ => {
            lemma_unwrapping(body, b);
        },
    }
}

proof fn lemma_direct(bodies: Seq<Body>, body: Body, n: nat)
    requires
        n <= body.blocks@.len(),
    ensures
        ({
            let f = scanned(crate_of(bodies), body, n);
            &&& forall|r: usize| #[trigger]
                f.result_class.contains_key(r) ==> result_known(
                    bodies,
                    body,
                    n,
                    r,
                    f.result_class[r],
                )
            &&& forall|r: usize, b: usize, lock: ClassIdV|
                b < n && #[trigger] takes_into(bodies, body, b, r, lock)
                    ==> f.result_class.contains_key(r)
            &&& forall|l: usize| #[trigger]
                f.guard_class.contains_key(l) ==> unwrapped_known(
                    bodies,
                    body,
                    n,
                    l,
                    f.guard_class[l],
                )
            &&& forall|a: usize, b: usize, from: usize, l: usize, lock: ClassIdV|
                a < b < n && #[trigger] takes_into(bodies, body, a, from, lock)
                    && #[trigger] unwraps_into(body, b, from, l) ==> f.guard_class.contains_key(l)
        }),
    decreases n,
{
    assert(body.blocks.len() == body.blocks@.len());
    if n > 0 {
        let m = (n - 1) as nat;
        let c = m as usize;
        let f = scanned(crate_of(bodies), body, m);
        let g = scanned(crate_of(bodies), body, n);
        lemma_direct(bodies, body, m);
        lemma_block_locks(bodies, body, f, c);
        assert forall|r: usize| #[trigger] g.result_class.contains_key(r) implies result_known(
            bodies,
            body,
            n,
            r,
            g.result_class[r],
        ) by {
            if !takes_into(bodies, body, c, r, g.result_class[r]) {
                assert(result_known(bodies, body, m, r, f.result_class[r]));
                let b = choose|b: usize|
                    b < m && #[trigger] takes_into(bodies, body, b, r, f.result_class[r]);
                assert(b < n && takes_into(bodies, body, b, r, g.result_class[r]));
            }
        }
        assert forall|r: usize, b: usize, lock: ClassIdV|
            b < n && #[trigger] takes_into(
                bodies,
                body,
                b,
                r,
                lock,
            ) implies g.result_class.contains_key(r) by {
            if b < m {
                assert(f.result_class.contains_key(r));
            }
        }
        assert forall|l: usize| #[trigger] g.guard_class.contains_key(l) implies unwrapped_known(
            bodies,
            body,
            n,
            l,
            g.guard_class[l],
        ) by {
            let lock = g.guard_class[l];
            if f.guard_class.contains_key(l) && lock == f.guard_class[l] {
                let (a, b, from) = choose|a: usize, b: usize, from: usize|
                    a < b < m && #[trigger] takes_into(bodies, body, a, from, lock)
                        && #[trigger] unwraps_into(body, b, from, l);
                assert(a < b < n && takes_into(bodies, body, a, from, lock) && unwraps_into(
                    body,
                    b,
                    from,
                    l,
                ));
            } else {
                let from = choose|from: usize|
                    f.result_class.contains_key(from) && lock == f.result_class[from]
                        && #[trigger] unwraps_into(body, c, from, l);
                assert(result_known(bodies, body, m, from, lock));
                let a = choose|a: usize|
                    a < m && #[trigger] takes_into(bodies, body, a, from, lock);
                assert(a < c < n && takes_into(bodies, body, a, from, lock) && unwraps_into(
                    body,
                    c,
                    from,
                    l,
                ));
            }
        }
        assert forall|a: usize, b: usize, from: usize, l: usize, lock: ClassIdV|
            a < b < n && #[trigger] takes_into(bodies, body, a, from, lock)
                && #[trigger] unwraps_into(
                body,
                b,
                from,
                l,
            ) implies g.guard_class.contains_key(l) by {
            if b < m {
                assert(f.guard_class.contains_key(l));
            } else {
                assert(b == c);
                assert(f.result_class.contains_key(from));
            }
        }
    }
}

proof fn lemma_returned(m: Map<usize, ClassIdV>, q: Seq<AcquireV>, l: usize)
    ensures
        with_returned(m, q).contains_key(l) <==> m.contains_key(l) || exists|a: AcquireV| #[trigger]
            q.contains(a) && a.guard == Some(l),
        with_returned(m, q).contains_key(l) ==> m.contains_key(l) && with_returned(m, q)[l] == m[l]
            || exists|a: AcquireV| #[trigger]
            q.contains(a) && a.guard == Some(l) && a.lock == with_returned(m, q)[l],
    decreases q.len(),
{
    if q.len() > 0 {
        let r = q.drop_last();
        lemma_returned(m, r, l);
        lemma_push(r, q.last());
        assert(q =~= r.push(q.last()));
        assert(q.contains(q.last()));
        assert(forall|a: AcquireV| r.contains(a) ==> #[trigger] q.contains(a));
        if exists|a: AcquireV| #[trigger] q.contains(a) && a.guard == Some(l) {
            let a = choose|a: AcquireV| #[trigger] q.contains(a) && a.guard == Some(l);
            assert(r.contains(a) || a == q.last());
        }
        if exists|a: AcquireV| #[trigger] r.contains(a) && a.guard == Some(l) {
            let a = choose|a: AcquireV| #[trigger] r.contains(a) && a.guard == Some(l);
            assert(q.contains(a));
        }
        if exists|a: AcquireV| #[trigger]
            r.contains(a) && a.guard == Some(l) && a.lock == with_returned(m, r)[l] {
            let a = choose|a: AcquireV| #[trigger]
                r.contains(a) && a.guard == Some(l) && a.lock == with_returned(m, r)[l];
            assert(q.contains(a));
        }
    }
}

/// The locks that reach guards directly.
spec fn direct(bodies: Seq<Body>, body: Body) -> Map<usize, ClassIdV> {
    let f = scanned(crate_of(bodies), body, body.blocks@.len());
    with_returned(f.guard_class, f.acquires)
}

proof fn lemma_reached(bodies: Seq<Body>, body: Body, l: usize)
    ensures
        direct(bodies, body).contains_key(l) <==> is_reached(bodies, body, l),
        direct(bodies, body).contains_key(l) ==> reaches(
            bodies,
            body,
            l,
            direct(bodies, body)[l],
        ),
{
    let n = body.blocks@.len();
    let f = scanned(crate_of(bodies), body, n);
    let d = direct(bodies, body);
    lemma_direct(bodies, body, n);
    lemma_found(bodies, body, n);
    lemma_returned(f.guard_class, f.acquires, l);
    if d.contains_key(l) {
        if f.guard_class.contains_key(l) && d[l] == f.guard_class[l] {
            assert(unwrapped_known(bodies, body, n, l, d[l]));
        } else {
            let a = choose|a: AcquireV| #[trigger]
                f.acquires.contains(a) && a.guard == Some(l) && a.lock == d[l];
            assert(takes(bodies, body, a.block, a.lock, a.guard));
            assert(takes_into(bodies, body, a.block, l, d[l]));
        }
        assert(reaches(bodies, body, l, d[l]));
    }
    if is_reached(bodies, body, l) {
        let lock = choose|lock: ClassIdV| #[trigger] reaches(bodies, body, l, lock);
        if is_guard(body, l) && exists|b: usize| #[trigger]
            takes_into(bodies, body, b, l, lock) {
            let b = choose|b: usize| #[trigger] takes_into(bodies, body, b, l, lock);
            assert(takes(bodies, body, b, lock, Some(l)));
            let a = AcquireV { block: b, lock, guard: Some(l) };
            assert(f.acquires.contains(a));
        } else {
            let (a, b, from) = choose|a: usize, b: usize, from: usize|
                a < b && #[trigger] takes_into(bodies, body, a, from, lock)
                    && #[trigger] unwraps_into(body, b, from, l);
            assert(b < n);
            assert(f.guard_class.contains_key(l));
        }
    }
}

proof fn lemma_first_known(m: Map<usize, ClassIdV>, chain: Seq<usize>)
    ensures
        match first_known(m, chain) {
            Some(k) => exists|i: int|
                0 <= i < chain.len() && m.contains_key(#[trigger] chain[i]) && m[chain[i]] == k
                    && forall|j: int| 0 <= j < i ==> !m.contains_key(#[trigger] chain[j]),
            None => forall|i: int| 0 <= i < chain.len() ==> !m.contains_key(#[trigger] chain[i]),
        },
    decreases chain.len(),
{
    if chain.len() > 0 && !m.contains_key(chain[0]) {
        let r = chain.drop_first();
        lemma_first_known(m, r);
        match first_known(m, r) {
            Some(k) => {
                let i = choose|i: int|
                    0 <= i < r.len() && m.contains_key(#[trigger] r[i]) && m[r[i]] == k
                        && forall|j: int| 0 <= j < i ==> !m.contains_key(#[trigger] r[j]);
                assert(chain[i + 1] == r[i]);
                assert forall|j: int| 0 <= j < i + 1 implies !m.contains_key(#[trigger] chain[j]) by {
                    if j > 0 {
                        assert(chain[j] == r[j - 1]);
                    }
                }
            },
            None => {
                assert forall|i: int| 0 <= i < chain.len() implies !m.contains_key(
                    #[trigger] chain[i],
                ) by {
                    if i > 0 {
                        assert(chain[i] == r[i - 1]);
                    }
                }
            },
        }
    }
}

proof fn lemma_chain(body: Body, l: usize, hops: nat, i: int)
    requires
        0 <= i < moved_through(body, l, hops).len(),
    ensures
        moved_back(body, l, i as nat) == Some(moved_through(body, l, hops)[i]),
    decreases hops,
{
    if i > 0 {
        match moves(assigned_to(body, l)) {
            Tally::One(from) => {
                lemma_chain(body, from, (hops - 1) as nat, i - 1);
                let rest = moved_through(body, from, (hops - 1) as nat);
                assert(moved_through(body, l, hops) == seq![l] + rest);
                assert(moved_through(body, l, hops)[i] == rest[i - 1]);
            },
            _ => {},
        }
    } else {
        match moves(assigned_to(body, l)) {
            Tally::One(from) => {
                if hops > 0 {
                    let rest = moved_through(body, from, (hops - 1) as nat);
                    assert(moved_through(body, l, hops) == seq![l] + rest);
                }
            },
            _ => {},
        }
    }
}

proof fn lemma_back(body: Body, l: usize, i: nat, j: nat)
    requires
        moved_back(body, l, i) is Some,
    ensures
        moved_back(body, l, i + j) == moved_back(body, moved_back(body, l, i)->0, j),
    decreases i,
{
    if i > 0 {
        match moves(assigned_to(body, l)) {
            Tally::One(from) => lemma_back(body, from, (i - 1) as nat, j),
            _ => {},
        }
    }
}

/// The lock reaches something that the value in `l` was moved out of.
pub open spec fn arrives(bodies: Seq<Body>, body: Body, l: usize, lock: ClassIdV) -> bool {
    exists|m: usize| came_from(body, l, m) && #[trigger] reaches(bodies, body, m, lock)
}

proof fn lemma_arrives(bodies: Seq<Body>, body: Body, l: usize, c: usize, lock: ClassIdV)
    requires
        came_from(body, l, c),
        arrives(bodies, body, c, lock),
    ensures
        arrives(bodies, body, l, lock),
{
    let m = choose|m: usize| came_from(body, c, m) && #[trigger] reaches(bodies, body, m, lock);
    let i = choose|i: nat| #[trigger] moved_back(body, l, i) == Some(c);
    let j = choose|j: nat| #[trigger] moved_back(body, c, j) == Some(m);
    lemma_back(body, l, i, j);
    assert(moved_back(body, l, i + j) == Some(m));
}

proof fn lemma_moved(bodies: Seq<Body>, body: Body, n: nat)
    requires
        n <= body.locals@.len(),
    ensures
        ({
            let d = direct(bodies, body);
            let w = with_moved(body, d, n);
            &&& forall|l: usize| #[trigger]
                w.contains_key(l) ==> arrives(bodies, body, l, w[l])
            &&& forall|l: usize| #[trigger]
                d.contains_key(l) ==> w.contains_key(l) && w[l] == d[l]
            &&& forall|l: usize, i: int|
                l < n && is_guard(body, l) && 0 <= i < moved_through(body, l, 8).len()
                    && #[trigger] d.contains_key(moved_through(body, l, 8)[i])
                    ==> w.contains_key(l)
            &&& forall|l: usize|
                n <= l && !d.contains_key(l) ==> !#[trigger] w.contains_key(l)
            &&& forall|l: usize|
                l < n && is_guard(body, l) && !#[trigger] d.contains_key(l) && 1 < moved_through(
                    body,
                    l,
                    8,
                ).len() && d.contains_key(moved_through(body, l, 8)[1])
                    ==> w.contains_key(l) && w[l] == d[moved_through(body, l, 8)[1]]
        }),
    decreases n,
{
    assert(body.locals.len() == body.locals@.len());
    let d = direct(bodies, body);
    if n > 0 {
        let before = with_moved(body, d, (n - 1) as nat);
        let w = with_moved(body, d, n);
        let g = (n - 1) as usize;
        let chain = moved_through(body, g, 8);
        lemma_moved(bodies, body, (n - 1) as nat);
        assert(chain[0] == g);
        if is_guard(body, g) && !before.contains_key(g) {
            lemma_first_known(before, chain);
            match first_known(before, chain) {
                Some(k) => {
                    let i = choose|i: int|
                        0 <= i < chain.len() && before.contains_key(#[trigger] chain[i])
                            && before[chain[i]] == k && forall|j: int|
                            0 <= j < i ==> !before.contains_key(#[trigger] chain[j]);
                    lemma_chain(body, g, 8, i);
                    assert(came_from(body, g, chain[i]));
                    lemma_arrives(bodies, body, g, chain[i], k);
                    if 1 < chain.len() && d.contains_key(chain[1]) {
                        assert(i == 1);
                    }
                },
                None => {
                    assert forall|i: int| 0 <= i < chain.len() implies !#[trigger] d.contains_key(
                        chain[i],
                    ) by {
                        assert(!before.contains_key(chain[i]));
                    }
                },
            }
        }
    } else {
        assert forall|l: usize| #[trigger] d.contains_key(l) implies arrives(
            bodies,
            body,
            l,
            d[l],
        ) by {
            lemma_reached(bodies, body, l);
            assert(moved_back(body, l, 0) == Some(l));
            assert(came_from(body, l, l));
            assert(reaches(bodies, body, l, d[l]));
        }
    }
}

/// The lock of a guard is one that reaches it, or reaches something that it was
/// moved out of.
pub proof fn guards_hold_locks_that_arrive(bodies: Seq<Body>, k: int, l: usize)
    requires
        0 <= k < bodies.len(),
        seen(bodies, k).locks.contains_key(l),
    ensures
        arrives(bodies, bodies[k], l, seen(bodies, k).locks[l]),
{
    let n = bodies[k].locals@.len();
    lemma_moved(bodies, bodies[k], n);
    assert(with_moved(bodies[k], direct(bodies, bodies[k]), n).contains_key(l));
}

/// A guard that a lock reaches is of such a lock: of that one, if there is only
/// one.
pub proof fn guards_are_of_the_lock_that_reaches_them(bodies: Seq<Body>, k: int, l: usize)
    requires
        0 <= k < bodies.len(),
        is_reached(bodies, bodies[k], l),
    ensures
        seen(bodies, k).locks.contains_key(l),
        reaches(bodies, bodies[k], l, seen(bodies, k).locks[l]),
{
    lemma_moved(bodies, bodies[k], bodies[k].locals@.len());
    lemma_reached(bodies, bodies[k], l);
}

/// A guard keeps its lock when it is moved: one that was moved out of a guard
/// that a lock reaches is of the same lock.
pub proof fn moved_guards_keep_their_lock(bodies: Seq<Body>, k: int, l: usize, m: usize)
    requires
        0 <= k < bodies.len(),
        is_guard(bodies[k], l),
        !is_reached(bodies, bodies[k], l),
        moves(assigned_to(bodies[k], l)) == Tally::One(m),
        is_reached(bodies, bodies[k], m),
    ensures
        seen(bodies, k).locks.contains_key(l),
        seen(bodies, k).locks[l] == seen(bodies, k).locks[m],
{
    let body = bodies[k];
    let d = direct(bodies, body);
    lemma_moved(bodies, body, body.locals@.len());
    lemma_reached(bodies, body, l);
    lemma_reached(bodies, body, m);
    let rest = moved_through(body, m, 7);
    assert(moved_through(body, l, 8) == seq![l] + rest);
    assert(rest[0] == m);
    assert(moved_through(body, l, 8)[1] == m);
    assert(!d.contains_key(l));
}

/// A guard that was moved, at most eight times, out of one that a lock reaches
/// has a lock.
pub proof fn moved_guards_are_known(bodies: Seq<Body>, k: int, l: usize, m: usize)
    requires
        0 <= k < bodies.len(),
        is_guard(bodies[k], l),
        moved_through(bodies[k], l, 8).contains(m),
        is_reached(bodies, bodies[k], m),
    ensures
        seen(bodies, k).locks.contains_key(l),
{
    let body = bodies[k];
    let d = direct(bodies, body);
    let chain = moved_through(body, l, 8);
    lemma_moved(bodies, body, body.locals@.len());
    lemma_reached(bodies, body, m);
    let i = choose|i: int| 0 <= i < chain.len() && chain[i] == m;
    assert(d.contains_key(chain[i]));
}

/// What `mem::drop` releases, and where a guard may have its lock from: the chain
/// of locals that a value was moved through follows the moves back, as far as
/// they go and no further than is asked for.
pub proof fn chains_follow_the_moves(body: Body, l: usize, hops: nat)
    ensures
        ({
            let chain = moved_through(body, l, hops);
            &&& 0 < chain.len() <= hops + 1
            &&& forall|i: int|
                0 <= i < chain.len() ==> moved_back(body, l, i as nat) == Some(#[trigger] chain[i])
            &&& chain.len() <= hops ==> !(moves(assigned_to(body, chain.last())) is One)
        }),
    decreases hops,
{
    let chain = moved_through(body, l, hops);
    assert forall|i: int| 0 <= i < chain.len() implies moved_back(body, l, i as nat) == Some(
        #[trigger] chain[i],
    ) by {
        lemma_chain(body, l, hops, i);
    }
    match moves(assigned_to(body, l)) {
        Tally::One(from) => {
            if hops > 0 {
                let rest = moved_through(body, from, (hops - 1) as nat);
                chains_follow_the_moves(body, from, (hops - 1) as nat);
                assert(chain == seq![l] + rest);
                assert(chain.last() == rest.last());
            }
        },
        _ => {},
    }
}

}
