//! Every call is accounted for: what is recorded of a crate is what the calls of
//! its bodies do, no less and no more.

use vstd::prelude::*;

use crate::events::ParamCallV;
use crate::inherit::LinkV;
use crate::lint::classes::{
    is_analyzed, lock_of, moved_through, param_of, runs, unknown_lock, CrateV,
};
use crate::lint::liveness::{guard_live, is_guard};
use crate::lint::mir::{place_of, Body, Callee, Operand, Place, TermKind, TyKind};
use crate::lint::output::lemma_ascending_distinct;
use crate::lint::paths::{
    calls_value, drops, enters_section, has_prefix, has_suffix, stripped, takes_lock, unwraps,
};
use crate::lint::scan::{
    acquire_event, body_facts, callable_body, callee_name, closure_arg, crate_of, handed_on,
    held_at, held_names, local_link, opaque_call, output_of, param_call, paths_in, released,
    scan_block, scanned, section_event, section_link, with_body, AcquireV, BodyV, ClassIdV,
    ClosureArgV, FoundV, HandedV, OpaqueCallV, OutV,
};
use crate::model::EventV;
use crate::ordset::{lemma_sorted_set, sorted};
use crate::text::Name;

verus! {

/// The text `t` is at the end of the path.
pub open spec fn leads_to(p: Name, t: Name) -> bool {
    exists|front: Name| p == #[trigger] (front + t)
}

/// The text `t` is at the start of the path.
pub open spec fn starts_from(p: Name, t: Name) -> bool {
    exists|rest: Name| p == #[trigger] (t + rest)
}

/// A call that unwraps a `Result`.
pub open spec fn is_unwrap(c: Callee) -> bool {
    let p = stripped(c.path@);
    leads_to(p, "Result::unwrap"@) || leads_to(p, "Result::expect"@)
}

/// A call of `mem::drop`.
pub open spec fn is_drop(c: Callee) -> bool {
    leads_to(stripped(c.path@), "mem::drop"@)
}

/// A call of a callable value.
pub open spec fn is_shim(c: Callee) -> bool {
    let p = stripped(c.path@);
    leads_to(p, "FnOnce::call_once"@) || leads_to(p, "FnMut::call_mut"@) || leads_to(
        p,
        "Fn::call"@,
    )
}

/// A call that runs a closure with the interrupts masked.
pub open spec fn is_section(c: Callee) -> bool {
    let p = stripped(c.path@);
    p == "critical_section::with"@ || leads_to(p, "interrupt::free"@)
}

/// A call that takes a lock.
pub open spec fn is_acquire(c: Callee) -> bool {
    let p = stripped(c.path@);
    ||| leads_to(p, "Mutex::lock"@)
    ||| leads_to(p, "RwLock::read"@)
    ||| leads_to(p, "RwLock::write"@)
    ||| (starts_from(p, "parking_lot"@) || starts_from(p, "spin"@)) && (leads_to(p, "::lock"@)
        || leads_to(p, "::read"@) || leads_to(p, "::write"@))
    ||| starts_from(p, "parking_lot"@) && (leads_to(p, "::read_recursive"@) || leads_to(
        p,
        "::upgradable_read"@,
    ))
}

/// A call of any other function.
pub open spec fn is_plain(c: Callee) -> bool {
    !is_unwrap(c) && !is_drop(c) && !is_shim(c) && !is_section(c) && !is_acquire(c)
}

/// The last two characters.
spec fn closes_with(p: Name, a: char, b: char) -> bool {
    p.len() >= 2 && p[p.len() - 2] == a && p[p.len() - 1] == b
}

proof fn lemma_leads(p: Name, t: Name)
    ensures
        leads_to(p, t) == has_suffix(p, t),
        starts_from(p, t) == has_prefix(p, t),
        leads_to(p, t) && t.len() >= 2 ==> closes_with(p, t[t.len() - 2], t[t.len() - 1]),
{
    if has_suffix(p, t) {
        let front = p.take(p.len() - t.len());
        assert(p =~= front + t);
    }
    if leads_to(p, t) {
        let front = choose|front: Name| p == #[trigger] (front + t);
        assert(p.skip(p.len() - t.len()) =~= t);
    }
    if has_prefix(p, t) {
        let rest = p.skip(t.len() as int);
        assert(p =~= t + rest);
    }
    if starts_from(p, t) {
        let rest = choose|rest: Name| p == #[trigger] (t + rest);
        assert(p.take(t.len() as int) =~= t);
    }
}

/// The calls are told apart by their paths, and no path is of two sorts.
pub proof fn lemma_sorts(c: Callee)
    ensures
        ({
            let p = stripped(c.path@);
            &&& unwraps(p) == is_unwrap(c)
            &&& drops(p) == is_drop(c)
            &&& calls_value(p) == is_shim(c)
            &&& enters_section(p) == is_section(c)
            &&& takes_lock(p) == is_acquire(c)
            &&& is_drop(c) ==> !is_unwrap(c)
            &&& is_shim(c) ==> !is_unwrap(c) && !is_drop(c)
            &&& is_section(c) ==> !is_unwrap(c) && !is_drop(c) && !is_shim(c)
            &&& is_acquire(c) ==> !is_unwrap(c) && !is_drop(c) && !is_shim(c) && !is_section(c)
        }),
{
    let p = stripped(c.path@);
    reveal_strlit("Result::unwrap");
    reveal_strlit("Result::expect");
    reveal_strlit("std::mem::drop");
    reveal_strlit("core::mem::drop");
    reveal_strlit("mem::drop");
    reveal_strlit("FnOnce::call_once");
    reveal_strlit("FnMut::call_mut");
    reveal_strlit("Fn::call");
    reveal_strlit("critical_section::with");
    reveal_strlit("::interrupt::free");
    reveal_strlit("interrupt::free");
    reveal_strlit("Mutex::lock");
    reveal_strlit("RwLock::read");
    reveal_strlit("RwLock::write");
    reveal_strlit("::lock");
    reveal_strlit("::read");
    reveal_strlit("::write");
    reveal_strlit("::read_recursive");
    reveal_strlit("::upgradable_read");
    lemma_leads(p, "Result::unwrap"@);
    lemma_leads(p, "Result::expect"@);
    lemma_leads(p, "mem::drop"@);
    lemma_leads(p, "FnOnce::call_once"@);
    lemma_leads(p, "FnMut::call_mut"@);
    lemma_leads(p, "Fn::call"@);
    lemma_leads(p, "::interrupt::free"@);
    lemma_leads(p, "interrupt::free"@);
    lemma_leads(p, "Mutex::lock"@);
    lemma_leads(p, "RwLock::read"@);
    lemma_leads(p, "RwLock::write"@);
    lemma_leads(p, "::lock"@);
    lemma_leads(p, "::read"@);
    lemma_leads(p, "::write"@);
    lemma_leads(p, "::read_recursive"@);
    lemma_leads(p, "::upgradable_read"@);
    lemma_leads(p, "parking_lot"@);
    lemma_leads(p, "spin"@);
    assert(drops(p) == is_drop(c)) by {
        if p == "std::mem::drop"@ || p == "core::mem::drop"@ {
            assert(p.skip(p.len() - 9) =~= "mem::drop"@);
        }
    }
    assert(enters_section(p) == is_section(c)) by {
        if has_suffix(p, "::interrupt::free"@) {
            let front = choose|front: Name| p == #[trigger] (front + "::interrupt::free"@);
            assert(p.skip(p.len() - 15) =~= "interrupt::free"@);
        }
    }
}

/// The body that the call runs is one of the bodies.
pub open spec fn runs_in(bodies: Seq<Body>, c: Callee) -> bool {
    c.target is Some && exists|j: int|
        0 <= j < bodies.len() && (#[trigger] bodies[j]).path@ == (c.target->0)@
}

/// Block `b` ends with a call of the function `c`.
pub open spec fn ends_in(body: Body, b: usize, c: Callee, args: Seq<Operand>, dest: Place) -> bool {
    b < body.blocks@.len() && match body.blocks@[b as int].terminator.kind {
        TermKind::Call { callee, args: a, dest: d } => callee == Some(c) && a@ == args && d == dest,
        _ => false,
    }
}

/// Block `b` ends with a call through a value.
pub open spec fn ends_unnamed(body: Body, b: usize) -> bool {
    b < body.blocks@.len() && match body.blocks@[b as int].terminator.kind {
        TermKind::Call { callee, args, dest } => callee is None,
        _ => false,
    }
}

/// The operand is the closure or function with the body `target`.
pub open spec fn is_body(o: Operand, target: Name) -> bool {
    match o {
        Operand::Copy(_, ty) => ty.kind matches TyKind::Body(path) && path@ == target,
        Operand::Move(_, ty) => ty.kind matches TyKind::Body(path) && path@ == target,
        Operand::Const { ty, item } => ty.kind matches TyKind::Body(path) && path@ == target,
    }
}

/// The first argument is a closure or function of known body.
pub open spec fn first_is_body(args: Seq<Operand>) -> bool {
    args.len() > 0 && exists|t: Name| #[trigger] is_body(args[0], t)
}

/// The first argument is what the function received as parameter `param`.
pub open spec fn first_is_param(body: Body, args: Seq<Operand>, param: usize) -> bool {
    args.len() > 0 && !first_is_body(args) && match args[0] {
        Operand::Copy(p, _) => param_of(body, p.local, 8) == Some(param),
        Operand::Move(p, _) => param_of(body, p.local, 8) == Some(param),
        Operand::Const { ty, item } => false,
    }
}

/// What the call `c` with `args` runs: a callable value by its body, a function
/// of the crate by the body that is known to run or else by its own path.
pub open spec fn call_runs(
    bodies: Seq<Body>,
    c: Callee,
    args: Seq<Operand>,
    target: Name,
) -> bool {
    ||| is_shim(c) && args.len() > 0 && is_body(args[0], target)
    ||| is_plain(c) && runs_in(bodies, c) && target == (c.target->0)@
    ||| is_plain(c) && !runs_in(bodies, c) && c.local && !c.of_trait && target == c.path@
}

/// The call `c` runs something that is not known.
pub open spec fn call_is_opaque(bodies: Seq<Body>, body: Body, c: Callee, args: Seq<Operand>) -> bool {
    ||| is_shim(c) && !first_is_body(args) && !exists|p: usize|
        #[trigger] first_is_param(body, args, p)
    ||| is_section(c) && !first_is_body(args)
    ||| is_plain(c) && !runs_in(bodies, c) && c.local && c.of_trait
}

/// Block `b` runs the body `target`.
pub open spec fn runs_body(bodies: Seq<Body>, body: Body, b: usize, target: Name) -> bool {
    exists|c: Callee, args: Seq<Operand>, dest: Place| #[trigger]
        ends_in(body, b, c, args, dest) && call_runs(bodies, c, args, target)
}

/// Block `b` runs the body `target` in a critical section.
pub open spec fn runs_section(body: Body, b: usize, target: Name) -> bool {
    exists|c: Callee, args: Seq<Operand>, dest: Place| #[trigger]
        ends_in(body, b, c, args, dest) && is_section(c) && args.len() > 0 && is_body(
            args[0],
            target,
        )
}

/// Block `b` calls what the function received as parameter `param`.
pub open spec fn calls_param(body: Body, b: usize, param: usize) -> bool {
    exists|c: Callee, args: Seq<Operand>, dest: Place| #[trigger]
        ends_in(body, b, c, args, dest) && is_shim(c) && first_is_param(body, args, param)
}

/// Block `b` runs something that is not known.
pub open spec fn runs_unknown(bodies: Seq<Body>, body: Body, b: usize) -> bool {
    ends_unnamed(body, b) || exists|c: Callee, args: Seq<Operand>, dest: Place| #[trigger]
        ends_in(body, b, c, args, dest) && call_is_opaque(bodies, body, c, args)
}

/// Block `b` takes the lock of the class and identity `lock`, and returns the
/// guard `guard` if it returns one directly.
pub open spec fn takes(
    bodies: Seq<Body>,
    body: Body,
    b: usize,
    lock: ClassIdV,
    guard: Option<usize>,
) -> bool {
    exists|c: Callee, args: Seq<Operand>, dest: Place| #[trigger]
        ends_in(body, b, c, args, dest) && is_acquire(c) && is_lock_of(
            crate_of(bodies),
            body,
            args,
            lock,
        ) && guard == if is_guard(body, dest.local) {
            Some(dest.local)
        } else {
            None
        }
}

/// The lock that the first argument refers to.
pub open spec fn is_lock_of(cr: CrateV, body: Body, args: Seq<Operand>, lock: ClassIdV) -> bool {
    let known = if args.len() > 0 {
        lock_of(cr, body, args[0])
    } else {
        unknown_lock()
    };
    lock.class == known.class && lock.id == known.id
}

/// Block `b` hands the callable `closure` on as argument number `param`, counted
/// from one, to the function `callee`.
pub open spec fn hands_on(
    bodies: Seq<Body>,
    body: Body,
    b: usize,
    callee: Name,
    param: nat,
    closure: Name,
) -> bool {
    exists|c: Callee, args: Seq<Operand>, dest: Place| #[trigger]
        ends_in(body, b, c, args, dest) && is_plain(c) && is_handed(
            bodies,
            c,
            args,
            HandedV { callee, param, closure },
        )
}

/// The callable is one of the arguments.
pub open spec fn is_handed(bodies: Seq<Body>, c: Callee, args: Seq<Operand>, h: HandedV) -> bool {
    &&& 1 <= h.param <= args.len()
    &&& h.callee == if runs_in(bodies, c) {
        (c.target->0)@
    } else {
        c.path@
    }
    &&& is_body(args[h.param - 1], h.closure) || is_unnamed(args[h.param - 1]) && h.closure
        == "<unknown>"@
}

/// The operand can be called, but it is not known what runs then.
pub open spec fn is_unnamed(o: Operand) -> bool {
    match o {
        Operand::Copy(_, ty) => ty.kind is Callable,
        Operand::Move(_, ty) => ty.kind is Callable,
        Operand::Const { ty, item } => ty.kind is Callable,
    }
}

/// Block `b` releases the guard `l` with `mem::drop`: it is an argument, or an
/// argument was moved out of it.
pub open spec fn releases(body: Body, b: usize, l: usize) -> bool {
    exists|c: Callee, args: Seq<Operand>, dest: Place| #[trigger]
        ends_in(body, b, c, args, dest) && is_drop(c) && is_released(body, args, l)
}

/// The local is an argument, or an argument was moved out of it.
pub open spec fn is_released(body: Body, args: Seq<Operand>, l: usize) -> bool {
    exists|i: int|
        0 <= i < args.len() && place_of(#[trigger] args[i]) is Some && moved_through(
            body,
            (place_of(args[i])->0).local,
            8,
        ).contains(l)
}

/// What a sequence with one more element holds.
pub proof fn lemma_push<T>(s: Seq<T>, x: T)
    ensures
        forall|y: T| #[trigger] s.push(x).contains(y) <==> s.contains(y) || y == x,
{
    let t = s.push(x);
    assert forall|y: T| #[trigger] t.contains(y) <==> s.contains(y) || y == x by {
        if s.contains(y) {
            let i = choose|i: int| 0 <= i < s.len() && s[i] == y;
            assert(t[i] == y);
        }
        if y == x {
            assert(t[s.len() as int] == y);
        }
        if t.contains(y) {
            let i = choose|i: int| 0 <= i < t.len() && t[i] == y;
            if i < s.len() {
                assert(s[i] == y);
            }
        }
    }
}

/// What two sequences hold together.
pub proof fn lemma_concat<T>(s: Seq<T>, t: Seq<T>)
    ensures
        forall|y: T| #[trigger] (s + t).contains(y) <==> s.contains(y) || t.contains(y),
{
    let r = s + t;
    assert forall|y: T| #[trigger] r.contains(y) <==> s.contains(y) || t.contains(y) by {
        if s.contains(y) {
            let i = choose|i: int| 0 <= i < s.len() && s[i] == y;
            assert(r[i] == y);
        }
        if t.contains(y) {
            let i = choose|i: int| 0 <= i < t.len() && t[i] == y;
            assert(r[s.len() + i] == y);
        }
        if r.contains(y) {
            let i = choose|i: int| 0 <= i < r.len() && r[i] == y;
            if i < s.len() {
                assert(s[i] == y);
            } else {
                assert(t[i - s.len()] == y);
            }
        }
    }
}

/// What a mapped sequence holds.
pub proof fn lemma_map<T, U>(s: Seq<T>, f: spec_fn(T) -> U)
    ensures
        forall|x: T| s.contains(x) ==> s.map_values(f).contains(#[trigger] f(x)),
        forall|y: U| #[trigger]
            s.map_values(f).contains(y) ==> exists|x: T| s.contains(x) && y == #[trigger] f(x),
{
    let r = s.map_values(f);
    assert forall|x: T| s.contains(x) implies r.contains(#[trigger] f(x)) by {
        let i = choose|i: int| 0 <= i < s.len() && s[i] == x;
        assert(r[i] == f(x));
    }
    assert forall|y: U| #[trigger] r.contains(y) implies exists|x: T|
        s.contains(x) && y == #[trigger] f(x) by {
        let i = choose|i: int| 0 <= i < r.len() && r[i] == y;
        assert(s.contains(s[i]));
        assert(y == f(s[i]));
    }
}

proof fn lemma_paths(bodies: Seq<Body>, p: Name)
    ensures
        paths_in(bodies).contains(p) <==> exists|j: int|
            0 <= j < bodies.len() && (#[trigger] bodies[j]).path@ == p,
    decreases bodies.len(),
{
    if bodies.len() > 0 {
        let q = bodies.drop_last();
        lemma_paths(q, p);
        if exists|j: int| 0 <= j < q.len() && (#[trigger] q[j]).path@ == p {
            let j = choose|j: int| 0 <= j < q.len() && (#[trigger] q[j]).path@ == p;
            assert(bodies[j].path@ == p);
        }
        if exists|j: int| 0 <= j < bodies.len() && (#[trigger] bodies[j]).path@ == p {
            let j = choose|j: int| 0 <= j < bodies.len() && (#[trigger] bodies[j]).path@ == p;
            if j < q.len() {
                assert(q[j].path@ == p);
            }
        }
        if paths_in(bodies).contains(p) && !paths_in(q).contains(p) {
            assert(bodies[bodies.len() - 1].path@ == p);
        }
    }
}

/// A call runs a body under analysis exactly if that is one of the bodies.
proof fn lemma_analyzed(bodies: Seq<Body>, c: Callee)
    ensures
        is_analyzed(crate_of(bodies), c) == runs_in(bodies, c),
{
    lemma_paths(bodies, runs(c));
}

proof fn lemma_body(o: Operand)
    ensures
        forall|t: Name| #[trigger] is_body(o, t) <==> callable_body(o) == Some(t),
{
}

/// The callables among the first `n` arguments.
proof fn lemma_handed(bodies: Seq<Body>, c: Callee, args: Seq<Operand>, n: int)
    requires
        0 <= n <= args.len(),
    ensures
        forall|h: HandedV| #[trigger]
            handed_on(crate_of(bodies), c, args, n).contains(h) <==> h.param <= n && is_handed(
                bodies,
                c,
                args,
                h,
            ),
    decreases n,
{
    lemma_analyzed(bodies, c);
    let cr = crate_of(bodies);
    if n > 0 {
        lemma_handed(bodies, c, args, n - 1);
        let o = args[n - 1];
        let before = handed_on(cr, c, args, n - 1);
        lemma_body(o);
        let closure = match callable_body(o) {
            Some(t) => t,
            None => "<unknown>"@,
        };
        let last = HandedV { callee: callee_name(cr, c), param: n as nat, closure };
        lemma_push(before, last);
    }
}

/// What the first `n` arguments of `mem::drop` release.
proof fn lemma_released(body: Body, b: usize, args: Seq<Operand>, n: int)
    requires
        0 <= n <= args.len(),
    ensures
        forall|e: (usize, usize)| #[trigger]
            released(body, b, args, n).contains(e) <==> e.0 == b && is_released(
                body,
                args.take(n),
                e.1,
            ),
    decreases n,
{
    if n > 0 {
        lemma_released(body, b, args, n - 1);
        let before = released(body, b, args, n - 1);
        let q = args.take(n);
        let r = args.take(n - 1);
        assert forall|e: (usize, usize)| #[trigger]
            released(body, b, args, n).contains(e) <==> e.0 == b && is_released(body, q, e.1) by {
            let (a, l) = e;
            if is_released(body, r, l) {
                let i = choose|i: int|
                    0 <= i < r.len() && place_of(#[trigger] r[i]) is Some && moved_through(
                        body,
                        (place_of(r[i])->0).local,
                        8,
                    ).contains(l);
                assert(q[i] == r[i]);
            }
            if is_released(body, q, l) {
                let i = choose|i: int|
                    0 <= i < q.len() && place_of(#[trigger] q[i]) is Some && moved_through(
                        body,
                        (place_of(q[i])->0).local,
                        8,
                    ).contains(l);
                if i < n - 1 {
                    assert(q[i] == r[i]);
                    assert(is_released(body, r, l));
                }
            }
            assert(q[n - 1] == args[n - 1]);
            match place_of(args[n - 1]) {
                Some(p) => {
                    let chain = moved_through(body, p.local, 8);
                    let pair = |l: usize| (b, l);
                    let more = chain.map_values(pair);
                    lemma_concat(before, more);
                    lemma_map(chain, pair);
                    if more.contains((a, l)) {
                        let x = choose|x: usize| chain.contains(x) && (a, l) == #[trigger] pair(x);
                        assert(is_released(body, q, l));
                    }
                    if chain.contains(l) && a == b {
                        assert(pair(l) == (a, l));
                    }
                },
                None => {},
            }
        }
    } else {
        assert(args.take(0).len() == 0);
    }
}

/// One of the first `n` blocks hands the callable on.
pub open spec fn is_handed_by(bodies: Seq<Body>, body: Body, n: nat, h: HandedV) -> bool {
    exists|b: usize|
        b < n && #[trigger] hands_on(bodies, body, b, h.callee, h.param, h.closure)
}

/// What a call adds to what was found.
#[verifier::rlimit(50)]
proof fn lemma_call(
    bodies: Seq<Body>,
    body: Body,
    f: FoundV,
    b: usize,
    c: Callee,
    args: Seq<Operand>,
    dest: Place,
)
    requires
        ends_in(body, b, c, args, dest),
    ensures
        forall|e: (usize, Name)| #[trigger]
            scan_block(crate_of(bodies), body, f, b).local_calls.contains(e) <==> f.local_calls.contains(e) || (e.0 == b && runs_body(bodies, body, e.0, e.1)),
        forall|e: (usize, Name)| #[trigger]
            scan_block(crate_of(bodies), body, f, b).cs_enters.contains(e) <==> f.cs_enters.contains(e) || (e.0 == b && runs_section(body, e.0, e.1)),
        forall|e: (usize, usize)| #[trigger]
            scan_block(crate_of(bodies), body, f, b).param_calls.contains(e) <==> f.param_calls.contains(e) || (e.0 == b && calls_param(body, e.0, e.1)),
        forall|e: usize| #[trigger]
            scan_block(crate_of(bodies), body, f, b).opaque_calls.contains(e) <==> f.opaque_calls.contains(e) || (e == b && runs_unknown(bodies, body, e)),
        forall|e: AcquireV| #[trigger]
            scan_block(crate_of(bodies), body, f, b).acquires.contains(e) <==> f.acquires.contains(e) || (e.block == b && takes(bodies, body, e.block, e.lock, e.guard)),
        forall|e: (usize, usize)| #[trigger]
            scan_block(crate_of(bodies), body, f, b).drops.contains(e) <==> f.drops.contains(e) || (e.0 == b && releases(body, e.0, e.1)),
        forall|e: HandedV| #[trigger]
            scan_block(crate_of(bodies), body, f, b).closure_args.contains(e)
                <==> f.closure_args.contains(e) || hands_on(
                bodies,
                body,
                b,
                e.callee,
                e.param,
                e.closure,
            ),
{
    let cr = crate_of(bodies);
    lemma_sorts(c);
    lemma_analyzed(bodies, c);
    lemma_handed(bodies, c, args, args.len() as int);
    lemma_released(body, b, args, args.len() as int);
    assert(args.take(args.len() as int) =~= args);
    assert(forall|a: usize, l: usize|
        releases(body, a, l) && a == b <==> a == b && is_drop(c) && is_released(body, args, l));
    if args.len() > 0 {
        lemma_body(args[0]);
        if callable_body(args[0]) is Some {
            assert(is_body(args[0], callable_body(args[0])->0));
            lemma_push(f.local_calls, (b, callable_body(args[0])->0));
            lemma_push(f.cs_enters, (b, callable_body(args[0])->0));
        }
        if place_of(args[0]) is Some {
            let p = param_of(body, (place_of(args[0])->0).local, 8);
            if p is Some {
                lemma_push(f.param_calls, (b, p->0));
                if !first_is_body(args) {
                    assert(first_is_param(body, args, p->0));
                }
            }
        }
    }
    lemma_push(f.local_calls, (b, runs(c)));
    lemma_push(f.local_calls, (b, c.path@));
    lemma_push(f.opaque_calls, b);
    lemma_concat(f.closure_args, handed_on(cr, c, args, args.len() as int));
    lemma_concat(f.drops, released(body, b, args, args.len() as int));
    let lock = if args.len() > 0 {
        lock_of(cr, body, args[0])
    } else {
        unknown_lock()
    };
    let a = AcquireV {
        block: b,
        lock: ClassIdV { class: lock.class, id: lock.id },
        guard: if is_guard(body, dest.local) {
            Some(dest.local)
        } else {
            None
        },
    };
    lemma_push(f.acquires, a);
}

/// What a block adds to what was found.
proof fn lemma_block(bodies: Seq<Body>, body: Body, f: FoundV, b: usize)
    requires
        b < body.blocks@.len(),
    ensures
        forall|e: (usize, Name)| #[trigger]
            scan_block(crate_of(bodies), body, f, b).local_calls.contains(e) <==> f.local_calls.contains(e) || (e.0 == b && runs_body(bodies, body, e.0, e.1)),
        forall|e: (usize, Name)| #[trigger]
            scan_block(crate_of(bodies), body, f, b).cs_enters.contains(e) <==> f.cs_enters.contains(e) || (e.0 == b && runs_section(body, e.0, e.1)),
        forall|e: (usize, usize)| #[trigger]
            scan_block(crate_of(bodies), body, f, b).param_calls.contains(e) <==> f.param_calls.contains(e) || (e.0 == b && calls_param(body, e.0, e.1)),
        forall|e: usize| #[trigger]
            scan_block(crate_of(bodies), body, f, b).opaque_calls.contains(e) <==> f.opaque_calls.contains(e) || (e == b && runs_unknown(bodies, body, e)),
        forall|e: AcquireV| #[trigger]
            scan_block(crate_of(bodies), body, f, b).acquires.contains(e) <==> f.acquires.contains(e) || (e.block == b && takes(bodies, body, e.block, e.lock, e.guard)),
        forall|e: (usize, usize)| #[trigger]
            scan_block(crate_of(bodies), body, f, b).drops.contains(e) <==> f.drops.contains(e) || (e.0 == b && releases(body, e.0, e.1)),
        forall|e: HandedV| #[trigger]
            scan_block(crate_of(bodies), body, f, b).closure_args.contains(e)
                <==> f.closure_args.contains(e) || hands_on(
                bodies,
                body,
                b,
                e.callee,
                e.param,
                e.closure,
            ),
{
    match body.blocks@[b as int].terminator.kind {
        TermKind::Call { callee, args, dest } => match callee {
            Some(c) => {
                assert(ends_in(body, b, c, args@, dest));
                lemma_call(bodies, body, f, b, c, args@, dest);
            },
            None => {
                lemma_push(f.opaque_calls, b);
            },
        },
        _ => {},
    }
}

/// What was found in the first `n` blocks is what they do.
pub proof fn lemma_found(bodies: Seq<Body>, body: Body, n: nat)
    requires
        n <= body.blocks@.len(),
    ensures
        forall|e: (usize, Name)| #[trigger]
            scanned(crate_of(bodies), body, n).local_calls.contains(e) <==> e.0 < n && runs_body(bodies, body, e.0, e.1),
        forall|e: (usize, Name)| #[trigger]
            scanned(crate_of(bodies), body, n).cs_enters.contains(e) <==> e.0 < n && runs_section(body, e.0, e.1),
        forall|e: (usize, usize)| #[trigger]
            scanned(crate_of(bodies), body, n).param_calls.contains(e) <==> e.0 < n && calls_param(body, e.0, e.1),
        forall|e: usize| #[trigger]
            scanned(crate_of(bodies), body, n).opaque_calls.contains(e) <==> e < n && runs_unknown(bodies, body, e),
        forall|e: AcquireV| #[trigger]
            scanned(crate_of(bodies), body, n).acquires.contains(e) <==> e.block < n && takes(bodies, body, e.block, e.lock, e.guard),
        forall|e: (usize, usize)| #[trigger]
            scanned(crate_of(bodies), body, n).drops.contains(e) <==> e.0 < n && releases(body, e.0, e.1),
        forall|e: HandedV| #[trigger]
            scanned(crate_of(bodies), body, n).closure_args.contains(e) <==> is_handed_by(
                bodies,
                body,
                n,
                e,
            ),
    decreases n,
{
    assert(body.blocks.len() == body.blocks@.len());
    if n > 0 {
        let m = (n - 1) as nat;
        let b = m as usize;
        lemma_found(bodies, body, m);
        let f = scanned(crate_of(bodies), body, m);
        lemma_block(bodies, body, f, b);
        assert forall|e: HandedV| #[trigger]
            scanned(crate_of(bodies), body, n).closure_args.contains(e) <==> is_handed_by(
                bodies,
                body,
                n,
                e,
            ) by {
            if is_handed_by(bodies, body, n, e) {
                let a = choose|a: usize|
                    a < n && #[trigger] hands_on(bodies, body, a, e.callee, e.param, e.closure);
                if a < m {
                    assert(is_handed_by(bodies, body, m, e));
                }
            }
            if is_handed_by(bodies, body, m, e) {
                let a = choose|a: usize|
                    a < m && #[trigger] hands_on(bodies, body, a, e.callee, e.param, e.closure);
                assert(is_handed_by(bodies, body, n, e));
            }
            if hands_on(bodies, body, b, e.callee, e.param, e.closure) {
                assert(is_handed_by(bodies, body, n, e));
            }
        }
    }
}

/// What a body does with locks, as seen in its crate.
pub open spec fn seen(bodies: Seq<Body>, k: int) -> BodyV {
    body_facts(crate_of(bodies), bodies[k])
}

/// What is recorded of a crate.
pub open spec fn outcome(bodies: Seq<Body>) -> OutV {
    output_of(crate_of(bodies), bodies)
}

/// A guard of class `class` is live at the end of block `b`, apart from the guard
/// `except`.
pub open spec fn is_held(x: BodyV, b: usize, except: Option<usize>, class: Name) -> bool {
    exists|l: usize|
        #[trigger] guard_live(x.body, x.found.drops, b, l) && Some(l) != except
            && x.locks.contains_key(l) && x.locks[l].class == class
}

/// The list names the classes of the guards that are live at the end of block
/// `b`, apart from the guard `except`, each of them once and nothing else.
pub open spec fn lists_held(held: Seq<Name>, x: BodyV, b: usize, except: Option<usize>) -> bool {
    &&& held.no_duplicates()
    &&& forall|c: Name| #[trigger] held.contains(c) <==> is_held(x, b, except, c)
}

/// The call edge from the body to `target`, made at the end of block `b`.
pub open spec fn is_edge(l: LinkV, x: BodyV, b: usize, target: Name) -> bool {
    l.source == x.body.path@ && l.target == target && lists_held(l.held, x, b, None)
}

/// The edge to what runs in the critical section: it runs with the section, and
/// everything held before, held.
pub open spec fn is_section_edge(l: LinkV, x: BodyV, b: usize, target: Name) -> bool {
    &&& l.source == x.body.path@
    &&& l.target == target
    &&& l.held.no_duplicates()
    &&& forall|c: Name| #[trigger]
        l.held.contains(c) <==> c == "<critical-section>"@ || is_held(x, b, None, c)
}

/// The acquisition of `class` at the end of block `b`, which returns `guard`.
pub open spec fn is_acquisition(
    e: EventV,
    x: BodyV,
    b: usize,
    class: Name,
    guard: Option<usize>,
) -> bool {
    &&& e.function == x.body.path@
    &&& e.site == x.body.blocks@[b as int].terminator.site@
    &&& e.acquires == class
    &&& lists_held(e.held, x, b, guard)
}

/// The call of parameter `param` at the end of block `b`.
pub open spec fn is_param_call(p: ParamCallV, x: BodyV, b: usize, param: usize) -> bool {
    p.function == x.body.path@ && p.param == param && lists_held(p.held, x, b, None)
}

/// The call at the end of block `b` of something that is not known.
pub open spec fn is_unknown_call(o: OpaqueCallV, x: BodyV, b: usize) -> bool {
    &&& o.function == x.body.path@
    &&& o.site == x.body.blocks@[b as int].terminator.site@
    &&& lists_held(o.held, x, b, None)
}

/// The callable that the body hands on.
pub open spec fn is_handing(
    a: ClosureArgV,
    x: BodyV,
    callee: Name,
    param: nat,
    closure: Name,
) -> bool {
    a.function == x.body.path@ && a.callee == callee && a.param == param && a.closure == closure
}

spec fn call_from(x: BodyV, l: LinkV) -> bool {
    ||| exists|e: (usize, Name)|
        x.found.local_calls.contains(e) && l == #[trigger] local_link(x, e)
    ||| exists|e: (usize, Name)|
        x.found.cs_enters.contains(e) && l == #[trigger] section_link(x, e)
}

spec fn event_from(x: BodyV, v: EventV) -> bool {
    ||| exists|a: AcquireV| x.found.acquires.contains(a) && v == #[trigger] acquire_event(x, a)
    ||| exists|e: (usize, Name)|
        x.found.cs_enters.contains(e) && v == #[trigger] section_event(x, e)
}

spec fn param_call_from(x: BodyV, v: ParamCallV) -> bool {
    exists|e: (usize, usize)| x.found.param_calls.contains(e) && v == #[trigger] param_call(x, e)
}

spec fn closure_arg_from(x: BodyV, v: ClosureArgV) -> bool {
    exists|h: HandedV| x.found.closure_args.contains(h) && v == #[trigger] closure_arg(x, h)
}

spec fn opaque_from(x: BodyV, v: OpaqueCallV) -> bool {
    exists|b: usize| x.found.opaque_calls.contains(b) && v == #[trigger] opaque_call(x, b)
}

/// What one more body adds to the output.
proof fn lemma_with_body(out: OutV, x: BodyV)
    ensures
        forall|l: LinkV| #[trigger]
            with_body(out, x).calls.contains(l) <==> out.calls.contains(l) || call_from(x, l),
        forall|v: EventV| #[trigger]
            with_body(out, x).events.contains(v) <==> out.events.contains(v) || event_from(x, v),
        forall|v: ParamCallV| #[trigger]
            with_body(out, x).param_calls.contains(v) <==> out.param_calls.contains(v)
                || param_call_from(x, v),
        forall|v: ClosureArgV| #[trigger]
            with_body(out, x).closure_args.contains(v) <==> out.closure_args.contains(v)
                || closure_arg_from(x, v),
        forall|v: OpaqueCallV| #[trigger]
            with_body(out, x).opaque_calls.contains(v) <==> out.opaque_calls.contains(v)
                || opaque_from(x, v),
{
    let f = x.found;
    let acquire = |a: AcquireV| acquire_event(x, a);
    let section = |e: (usize, Name)| section_event(x, e);
    let local = |e: (usize, Name)| local_link(x, e);
    let inner = |e: (usize, Name)| section_link(x, e);
    let param = |e: (usize, usize)| param_call(x, e);
    let handed = |h: HandedV| closure_arg(x, h);
    let opaque = |b: usize| opaque_call(x, b);
    lemma_map(f.acquires, acquire);
    lemma_map(f.cs_enters, section);
    lemma_map(f.local_calls, local);
    lemma_map(f.cs_enters, inner);
    lemma_map(f.param_calls, param);
    lemma_map(f.closure_args, handed);
    lemma_map(f.opaque_calls, opaque);
    let r = with_body(out, x);
    assert forall|l: LinkV| #[trigger] r.calls.contains(l) <==> out.calls.contains(l)
        || call_from(x, l) by {
        let a = f.local_calls.map_values(local);
        let b = f.cs_enters.map_values(inner);
        lemma_concat(out.calls + a, b);
        lemma_concat(out.calls, a);
        if a.contains(l) {
            let e = choose|e: (usize, Name)| f.local_calls.contains(e) && l == #[trigger] local(e);
            assert(l == local_link(x, e));
        }
        if b.contains(l) {
            let e = choose|e: (usize, Name)| f.cs_enters.contains(e) && l == #[trigger] inner(e);
            assert(l == section_link(x, e));
        }
        if exists|e: (usize, Name)| f.local_calls.contains(e) && l == #[trigger] local_link(x, e) {
            let e = choose|e: (usize, Name)|
                f.local_calls.contains(e) && l == #[trigger] local_link(x, e);
            assert(local(e) == l);
        }
        if exists|e: (usize, Name)| f.cs_enters.contains(e) && l == #[trigger] section_link(x, e) {
            let e = choose|e: (usize, Name)|
                f.cs_enters.contains(e) && l == #[trigger] section_link(x, e);
            assert(inner(e) == l);
        }
    }
    assert forall|v: EventV| #[trigger] r.events.contains(v) <==> out.events.contains(v)
        || event_from(x, v) by {
        let a = f.acquires.map_values(acquire);
        let b = f.cs_enters.map_values(section);
        lemma_concat(out.events + a, b);
        lemma_concat(out.events, a);
        if a.contains(v) {
            let e = choose|e: AcquireV| f.acquires.contains(e) && v == #[trigger] acquire(e);
            assert(v == acquire_event(x, e));
        }
        if b.contains(v) {
            let e = choose|e: (usize, Name)| f.cs_enters.contains(e) && v == #[trigger] section(e);
            assert(v == section_event(x, e));
        }
        if exists|e: AcquireV| f.acquires.contains(e) && v == #[trigger] acquire_event(x, e) {
            let e = choose|e: AcquireV|
                f.acquires.contains(e) && v == #[trigger] acquire_event(x, e);
            assert(acquire(e) == v);
        }
        if exists|e: (usize, Name)| f.cs_enters.contains(e) && v == #[trigger] section_event(x, e) {
            let e = choose|e: (usize, Name)|
                f.cs_enters.contains(e) && v == #[trigger] section_event(x, e);
            assert(section(e) == v);
        }
    }
    assert forall|v: ParamCallV| #[trigger] r.param_calls.contains(v)
        <==> out.param_calls.contains(v) || param_call_from(x, v) by {
        let a = f.param_calls.map_values(param);
        lemma_concat(out.param_calls, a);
        if a.contains(v) {
            let e = choose|e: (usize, usize)| f.param_calls.contains(e) && v == #[trigger] param(e);
            assert(v == param_call(x, e));
        }
        if param_call_from(x, v) {
            let e = choose|e: (usize, usize)|
                f.param_calls.contains(e) && v == #[trigger] param_call(x, e);
            assert(param(e) == v);
        }
    }
    assert forall|v: ClosureArgV| #[trigger] r.closure_args.contains(v)
        <==> out.closure_args.contains(v) || closure_arg_from(x, v) by {
        let a = f.closure_args.map_values(handed);
        lemma_concat(out.closure_args, a);
        if a.contains(v) {
            let h = choose|h: HandedV| f.closure_args.contains(h) && v == #[trigger] handed(h);
            assert(v == closure_arg(x, h));
        }
        if closure_arg_from(x, v) {
            let h = choose|h: HandedV|
                f.closure_args.contains(h) && v == #[trigger] closure_arg(x, h);
            assert(handed(h) == v);
        }
    }
    assert forall|v: OpaqueCallV| #[trigger] r.opaque_calls.contains(v)
        <==> out.opaque_calls.contains(v) || opaque_from(x, v) by {
        let a = f.opaque_calls.map_values(opaque);
        lemma_concat(out.opaque_calls, a);
        if a.contains(v) {
            let b = choose|b: usize| f.opaque_calls.contains(b) && v == #[trigger] opaque(b);
            assert(v == opaque_call(x, b));
        }
        if opaque_from(x, v) {
            let b = choose|b: usize| f.opaque_calls.contains(b) && v == #[trigger] opaque_call(x, b);
            assert(opaque(b) == v);
        }
    }
}

/// Some body of `q` records the edge.
spec fn some_call(cr: CrateV, q: Seq<Body>, l: LinkV) -> bool {
    exists|k: int| 0 <= k < q.len() && #[trigger] call_from(body_facts(cr, q[k]), l)
}

spec fn some_event(cr: CrateV, q: Seq<Body>, v: EventV) -> bool {
    exists|k: int| 0 <= k < q.len() && #[trigger] event_from(body_facts(cr, q[k]), v)
}

spec fn some_param_call(cr: CrateV, q: Seq<Body>, v: ParamCallV) -> bool {
    exists|k: int| 0 <= k < q.len() && #[trigger] param_call_from(body_facts(cr, q[k]), v)
}

spec fn some_closure_arg(cr: CrateV, q: Seq<Body>, v: ClosureArgV) -> bool {
    exists|k: int| 0 <= k < q.len() && #[trigger] closure_arg_from(body_facts(cr, q[k]), v)
}

spec fn some_opaque(cr: CrateV, q: Seq<Body>, v: OpaqueCallV) -> bool {
    exists|k: int| 0 <= k < q.len() && #[trigger] opaque_from(body_facts(cr, q[k]), v)
}

/// The output is what the bodies record.
proof fn lemma_output(cr: CrateV, q: Seq<Body>)
    ensures
        forall|v: LinkV| #[trigger]
            output_of(cr, q).calls.contains(v) <==> some_call(cr, q, v),
        forall|v: EventV| #[trigger]
            output_of(cr, q).events.contains(v) <==> some_event(cr, q, v),
        forall|v: ParamCallV| #[trigger]
            output_of(cr, q).param_calls.contains(v) <==> some_param_call(cr, q, v),
        forall|v: ClosureArgV| #[trigger]
            output_of(cr, q).closure_args.contains(v) <==> some_closure_arg(cr, q, v),
        forall|v: OpaqueCallV| #[trigger]
            output_of(cr, q).opaque_calls.contains(v) <==> some_opaque(cr, q, v),
    decreases q.len(),
{
    if q.len() > 0 {
        let r = q.drop_last();
        let n = r.len() as int;
        lemma_output(cr, r);
        lemma_with_body(output_of(cr, r), body_facts(cr, q.last()));
        assert forall|v: LinkV| #[trigger] output_of(cr, q).calls.contains(v) <==> some_call(
            cr,
            q,
            v,
        ) by {
            if some_call(cr, r, v) {
                let k = choose|k: int|
                    0 <= k < r.len() && #[trigger] call_from(body_facts(cr, r[k]), v);
                assert(call_from(body_facts(cr, q[k]), v));
            }
            if some_call(cr, q, v) {
                let k = choose|k: int|
                    0 <= k < q.len() && #[trigger] call_from(body_facts(cr, q[k]), v);
                if k < n {
                    assert(call_from(body_facts(cr, r[k]), v));
                }
            }
            if call_from(body_facts(cr, q.last()), v) {
                assert(call_from(body_facts(cr, q[n]), v));
            }
        }
        assert forall|v: EventV| #[trigger] output_of(cr, q).events.contains(v) <==> some_event(
            cr,
            q,
            v,
        ) by {
            if some_event(cr, r, v) {
                let k = choose|k: int|
                    0 <= k < r.len() && #[trigger] event_from(body_facts(cr, r[k]), v);
                assert(event_from(body_facts(cr, q[k]), v));
            }
            if some_event(cr, q, v) {
                let k = choose|k: int|
                    0 <= k < q.len() && #[trigger] event_from(body_facts(cr, q[k]), v);
                if k < n {
                    assert(event_from(body_facts(cr, r[k]), v));
                }
            }
            if event_from(body_facts(cr, q.last()), v) {
                assert(event_from(body_facts(cr, q[n]), v));
            }
        }
        assert forall|v: ParamCallV| #[trigger] output_of(cr, q).param_calls.contains(v) <==> some_param_call(
            cr,
            q,
            v,
        ) by {
            if some_param_call(cr, r, v) {
                let k = choose|k: int|
                    0 <= k < r.len() && #[trigger] param_call_from(body_facts(cr, r[k]), v);
                assert(param_call_from(body_facts(cr, q[k]), v));
            }
            if some_param_call(cr, q, v) {
                let k = choose|k: int|
                    0 <= k < q.len() && #[trigger] param_call_from(body_facts(cr, q[k]), v);
                if k < n {
                    assert(param_call_from(body_facts(cr, r[k]), v));
                }
            }
            if param_call_from(body_facts(cr, q.last()), v) {
                assert(param_call_from(body_facts(cr, q[n]), v));
            }
        }
        assert forall|v: ClosureArgV| #[trigger] output_of(cr, q).closure_args.contains(v) <==> some_closure_arg(
            cr,
            q,
            v,
        ) by {
            if some_closure_arg(cr, r, v) {
                let k = choose|k: int|
                    0 <= k < r.len() && #[trigger] closure_arg_from(body_facts(cr, r[k]), v);
                assert(closure_arg_from(body_facts(cr, q[k]), v));
            }
            if some_closure_arg(cr, q, v) {
                let k = choose|k: int|
                    0 <= k < q.len() && #[trigger] closure_arg_from(body_facts(cr, q[k]), v);
                if k < n {
                    assert(closure_arg_from(body_facts(cr, r[k]), v));
                }
            }
            if closure_arg_from(body_facts(cr, q.last()), v) {
                assert(closure_arg_from(body_facts(cr, q[n]), v));
            }
        }
        assert forall|v: OpaqueCallV| #[trigger] output_of(cr, q).opaque_calls.contains(v) <==> some_opaque(
            cr,
            q,
            v,
        ) by {
            if some_opaque(cr, r, v) {
                let k = choose|k: int|
                    0 <= k < r.len() && #[trigger] opaque_from(body_facts(cr, r[k]), v);
                assert(opaque_from(body_facts(cr, q[k]), v));
            }
            if some_opaque(cr, q, v) {
                let k = choose|k: int|
                    0 <= k < q.len() && #[trigger] opaque_from(body_facts(cr, q[k]), v);
                if k < n {
                    assert(opaque_from(body_facts(cr, r[k]), v));
                }
            }
            if opaque_from(body_facts(cr, q.last()), v) {
                assert(opaque_from(body_facts(cr, q[n]), v));
            }
        }
    }
}

/// The classes of the guards among the first `n` locals that are live at the end
/// of block `b`.
spec fn held_below(x: BodyV, b: usize, except: Option<usize>, n: nat) -> Set<Name> {
    Set::new(
        |c: Name|
            exists|l: usize|
                l < n && #[trigger] guard_live(x.body, x.found.drops, b, l) && Some(l) != except
                    && x.locks.contains_key(l) && x.locks[l].class == c,
    )
}

proof fn lemma_held_below(x: BodyV, b: usize, except: Option<usize>, n: nat)
    requires
        n <= usize::MAX,
    ensures
        held_below(x, b, except, n).finite(),
    decreases n,
{
    let s = held_below(x, b, except, n);
    if n > 0 {
        let m = (n - 1) as nat;
        lemma_held_below(x, b, except, m);
        let t = held_below(x, b, except, m);
        let l = m as usize;
        let all = t.insert(x.locks[l].class);
        assert forall|c: Name| s.contains(c) implies all.contains(c) by {
            let g = choose|g: usize|
                g < n && #[trigger] guard_live(x.body, x.found.drops, b, g) && Some(g) != except
                    && x.locks.contains_key(g) && x.locks[g].class == c;
            if g < m {
                assert(t.contains(c));
            }
        }
        assert(s.subset_of(all));
        vstd::set_lib::lemma_set_subset_finite(all, s);
    } else {
        assert(s =~= Set::empty());
    }
}

/// The recorded lists name the classes held.
proof fn lemma_held(x: BodyV, b: usize, except: Option<usize>)
    ensures
        lists_held(held_names(x, b, except), x, b, except),
        ({
            let s = held_at(x.body, x.found.drops, x.locks, b, except);
            let held = sorted(s.insert("<critical-section>"@));
            &&& held.no_duplicates()
            &&& forall|c: Name| #[trigger]
                held.contains(c) <==> c == "<critical-section>"@ || is_held(x, b, except, c)
        }),
{
    let s = held_at(x.body, x.found.drops, x.locks, b, except);
    assert(x.body.locals.len() == x.body.locals@.len());
    let n = x.body.locals@.len();
    lemma_held_below(x, b, except, n);
    let t = held_below(x, b, except, n);
    assert forall|c: Name| s.contains(c) implies t.contains(c) by {
        let g = choose|g: usize|
            #[trigger] guard_live(x.body, x.found.drops, b, g) && Some(g) != except
                && x.locks.contains_key(g) && x.locks[g].class == c;
        assert(g < n);
    }
    assert(s.subset_of(t));
    vstd::set_lib::lemma_set_subset_finite(t, s);
    lemma_sorted_set(s);
    lemma_ascending_distinct(sorted(s));
    let more = s.insert("<critical-section>"@);
    lemma_sorted_set(more);
    lemma_ascending_distinct(sorted(more));
    assert forall|c: Name| #[trigger] sorted(s).contains(c) <==> is_held(x, b, except, c) by {
        assert(s.contains(c) <==> is_held(x, b, except, c));
    }
    assert forall|c: Name| #[trigger] sorted(more).contains(c) <==> c == "<critical-section>"@
        || is_held(x, b, except, c) by {
        assert(s.contains(c) <==> is_held(x, b, except, c));
    }
}

/// Every call of a known body makes a call edge that holds the class of every
/// guard live at the call: a call of a closure or a function as a value, a call
/// of a function of the crate, a call of a method whose body is known.
pub proof fn known_calls_are_recorded(bodies: Seq<Body>, k: int, b: usize, target: Name)
    requires
        0 <= k < bodies.len(),
        runs_body(bodies, bodies[k], b, target),
    ensures
        exists|i: int|
            0 <= i < outcome(bodies).calls.len() && is_edge(
                #[trigger] outcome(bodies).calls[i],
                seen(bodies, k),
                b,
                target,
            ),
{
    let cr = crate_of(bodies);
    let x = seen(bodies, k);
    let out = outcome(bodies);
    lemma_found(bodies, bodies[k], bodies[k].blocks@.len());
    let l = local_link(x, (b, target));
    assert(x.found.local_calls.contains((b, target)));
    assert(call_from(body_facts(cr, bodies[k]), l));
    lemma_output(cr, bodies);
    assert(out.calls.contains(l));
    let i = choose|i: int| 0 <= i < out.calls.len() && out.calls[i] == l;
    lemma_held(x, b, None);
    assert(is_edge(out.calls[i], x, b, target));
}

/// Every critical section with a known closure makes an acquisition of the one
/// section, and a call edge that holds the section and the class of every guard
/// live at the call.
pub proof fn sections_are_recorded(bodies: Seq<Body>, k: int, b: usize, target: Name)
    requires
        0 <= k < bodies.len(),
        runs_section(bodies[k], b, target),
    ensures
        exists|i: int|
            0 <= i < outcome(bodies).calls.len() && is_section_edge(
                #[trigger] outcome(bodies).calls[i],
                seen(bodies, k),
                b,
                target,
            ),
        exists|i: int|
            0 <= i < outcome(bodies).events.len() && is_acquisition(
                #[trigger] outcome(bodies).events[i],
                seen(bodies, k),
                b,
                "<critical-section>"@,
                None,
            ),
{
    let cr = crate_of(bodies);
    let x = seen(bodies, k);
    let out = outcome(bodies);
    lemma_found(bodies, bodies[k], bodies[k].blocks@.len());
    let e = (b, target);
    let l = section_link(x, e);
    let v = section_event(x, e);
    assert(x.found.cs_enters.contains(e));
    assert(call_from(body_facts(cr, bodies[k]), l));
    assert(event_from(body_facts(cr, bodies[k]), v));
    lemma_output(cr, bodies);
    assert(out.calls.contains(l));
    assert(out.events.contains(v));
    lemma_held(x, b, None);
    let i = choose|i: int| 0 <= i < out.calls.len() && out.calls[i] == l;
    assert(is_section_edge(out.calls[i], x, b, target));
    let j = choose|j: int| 0 <= j < out.events.len() && out.events[j] == v;
    assert(is_acquisition(out.events[j], x, b, "<critical-section>"@, None));
}

/// Every call that takes a lock makes an acquisition of the class of that lock,
/// under every guard live at the call, apart from the guard that it returns.
pub proof fn acquisitions_are_recorded(
    bodies: Seq<Body>,
    k: int,
    b: usize,
    lock: ClassIdV,
    guard: Option<usize>,
)
    requires
        0 <= k < bodies.len(),
        takes(bodies, bodies[k], b, lock, guard),
    ensures
        exists|i: int|
            0 <= i < outcome(bodies).events.len() && is_acquisition(
                #[trigger] outcome(bodies).events[i],
                seen(bodies, k),
                b,
                lock.class,
                guard,
            ),
{
    let cr = crate_of(bodies);
    let x = seen(bodies, k);
    let out = outcome(bodies);
    lemma_found(bodies, bodies[k], bodies[k].blocks@.len());
    let a = AcquireV { block: b, lock, guard };
    let v = acquire_event(x, a);
    assert(x.found.acquires.contains(a));
    assert(event_from(body_facts(cr, bodies[k]), v));
    lemma_output(cr, bodies);
    assert(out.events.contains(v));
    let i = choose|i: int| 0 <= i < out.events.len() && out.events[i] == v;
    lemma_held(x, b, guard);
    assert(is_acquisition(out.events[i], x, b, lock.class, guard));
}

/// Every call of a parameter is recorded, with the class of every guard live at
/// the call.
pub proof fn parameter_calls_are_recorded(bodies: Seq<Body>, k: int, b: usize, param: usize)
    requires
        0 <= k < bodies.len(),
        calls_param(bodies[k], b, param),
    ensures
        exists|i: int|
            0 <= i < outcome(bodies).param_calls.len() && is_param_call(
                #[trigger] outcome(bodies).param_calls[i],
                seen(bodies, k),
                b,
                param,
            ),
{
    let cr = crate_of(bodies);
    let x = seen(bodies, k);
    let out = outcome(bodies);
    lemma_found(bodies, bodies[k], bodies[k].blocks@.len());
    let v = param_call(x, (b, param));
    assert(x.found.param_calls.contains((b, param)));
    assert(param_call_from(body_facts(cr, bodies[k]), v));
    lemma_output(cr, bodies);
    assert(out.param_calls.contains(v));
    let i = choose|i: int| 0 <= i < out.param_calls.len() && out.param_calls[i] == v;
    lemma_held(x, b, None);
    assert(is_param_call(out.param_calls[i], x, b, param));
}

/// Every call of something that is not known is recorded as such, with the class
/// of every guard live at the call.
pub proof fn unknown_calls_are_recorded(bodies: Seq<Body>, k: int, b: usize)
    requires
        0 <= k < bodies.len(),
        runs_unknown(bodies, bodies[k], b),
    ensures
        exists|i: int|
            0 <= i < outcome(bodies).opaque_calls.len() && is_unknown_call(
                #[trigger] outcome(bodies).opaque_calls[i],
                seen(bodies, k),
                b,
            ),
{
    let cr = crate_of(bodies);
    let x = seen(bodies, k);
    let out = outcome(bodies);
    lemma_found(bodies, bodies[k], bodies[k].blocks@.len());
    let v = opaque_call(x, b);
    assert(x.found.opaque_calls.contains(b));
    assert(opaque_from(body_facts(cr, bodies[k]), v));
    lemma_output(cr, bodies);
    assert(out.opaque_calls.contains(v));
    let i = choose|i: int| 0 <= i < out.opaque_calls.len() && out.opaque_calls[i] == v;
    lemma_held(x, b, None);
    assert(is_unknown_call(out.opaque_calls[i], x, b));
}

/// Every callable that is an argument of a call is recorded, by its place among
/// the arguments; one without a known body as unknown.
pub proof fn callables_handed_on_are_recorded(
    bodies: Seq<Body>,
    k: int,
    b: usize,
    callee: Name,
    param: nat,
    closure: Name,
)
    requires
        0 <= k < bodies.len(),
        hands_on(bodies, bodies[k], b, callee, param, closure),
    ensures
        exists|i: int|
            0 <= i < outcome(bodies).closure_args.len() && is_handing(
                #[trigger] outcome(bodies).closure_args[i],
                seen(bodies, k),
                callee,
                param,
                closure,
            ),
{
    let cr = crate_of(bodies);
    let x = seen(bodies, k);
    let out = outcome(bodies);
    let n = bodies[k].blocks@.len();
    lemma_found(bodies, bodies[k], n);
    let h = HandedV { callee, param, closure };
    let v = closure_arg(x, h);
    assert(hands_on(bodies, bodies[k], b, h.callee, h.param, h.closure));
    assert(is_handed_by(bodies, bodies[k], n, h));
    assert(x.found.closure_args.contains(h));
    assert(closure_arg_from(body_facts(cr, bodies[k]), v));
    lemma_output(cr, bodies);
    assert(out.closure_args.contains(v));
    let i = choose|i: int| 0 <= i < out.closure_args.len() && out.closure_args[i] == v;
    assert(is_handing(out.closure_args[i], x, callee, param, closure));
}

/// Block `b` of body `k` ends with a call.
pub open spec fn ends_with_call(bodies: Seq<Body>, k: int, b: usize) -> bool {
    &&& 0 <= k < bodies.len()
    &&& b < bodies[k].blocks@.len()
    &&& bodies[k].blocks@[b as int].terminator.kind is Call
}

/// The call at the end of block `b` of body `k` runs nothing that is under
/// analysis: it unwraps a result, drops a value, or is an ordinary call of a
/// function outside the crate.
pub open spec fn runs_elsewhere(bodies: Seq<Body>, k: int, b: usize) -> bool {
    exists|c: Callee, args: Seq<Operand>, dest: Place| #[trigger]
        ends_in(bodies[k], b, c, args, dest) && (is_unwrap(c) || is_drop(c) || is_plain(c)
            && !c.local && !runs_in(bodies, c))
}

/// No call gets lost: for every call of a body there is a call edge, a critical
/// section, an acquisition, a call of a parameter or an unknown call, unless it
/// runs nothing that is under analysis.
pub proof fn every_call_is_accounted_for(bodies: Seq<Body>, k: int, b: usize)
    requires
        ends_with_call(bodies, k, b),
        !runs_elsewhere(bodies, k, b),
    ensures
        ({
            let out = outcome(bodies);
            let x = seen(bodies, k);
            ||| exists|i: int, t: Name|
                0 <= i < out.calls.len() && #[trigger] is_edge(out.calls[i], x, b, t)
            ||| exists|i: int, t: Name|
                0 <= i < out.calls.len() && #[trigger] is_section_edge(out.calls[i], x, b, t)
            ||| exists|i: int, class: Name, guard: Option<usize>|
                0 <= i < out.events.len() && #[trigger] is_acquisition(
                    out.events[i],
                    x,
                    b,
                    class,
                    guard,
                )
            ||| exists|i: int, p: usize|
                0 <= i < out.param_calls.len() && #[trigger] is_param_call(
                    out.param_calls[i],
                    x,
                    b,
                    p,
                )
            ||| exists|i: int|
                0 <= i < out.opaque_calls.len() && #[trigger] is_unknown_call(
                    out.opaque_calls[i],
                    x,
                    b,
                )
        }),
{
    let body = bodies[k];
    let out = outcome(bodies);
    let x = seen(bodies, k);
    match body.blocks@[b as int].terminator.kind {
        TermKind::Call { callee: None, args, dest } => {
            unknown_calls_are_recorded(bodies, k, b);
            let i = choose|i: int|
                0 <= i < out.opaque_calls.len() && is_unknown_call(
                    #[trigger] out.opaque_calls[i],
                    x,
                    b,
                );
            assert(is_unknown_call(out.opaque_calls[i], x, b));
        },
        TermKind::Call { callee: Some(c), args, dest } => {
            let args = args@;
            assert(ends_in(body, b, c, args, dest));
            if is_acquire(c) {
                let known = if args.len() > 0 {
                    lock_of(crate_of(bodies), body, args[0])
                } else {
                    unknown_lock()
                };
                let lock = ClassIdV { class: known.class, id: known.id };
                let guard = if is_guard(body, dest.local) {
                    Some(dest.local)
                } else {
                    None
                };
                acquisitions_are_recorded(bodies, k, b, lock, guard);
                let i = choose|i: int|
                    0 <= i < out.events.len() && is_acquisition(
                        #[trigger] out.events[i],
                        x,
                        b,
                        lock.class,
                        guard,
                    );
                assert(is_acquisition(out.events[i], x, b, lock.class, guard));
            } else if call_is_opaque(bodies, body, c, args) {
                unknown_calls_are_recorded(bodies, k, b);
                let i = choose|i: int|
                    0 <= i < out.opaque_calls.len() && is_unknown_call(
                        #[trigger] out.opaque_calls[i],
                        x,
                        b,
                    );
                assert(is_unknown_call(out.opaque_calls[i], x, b));
            } else if is_section(c) {
                let t = choose|t: Name| #[trigger] is_body(args[0], t);
                assert(runs_section(body, b, t));
                sections_are_recorded(bodies, k, b, t);
                let i = choose|i: int|
                    0 <= i < out.calls.len() && is_section_edge(#[trigger] out.calls[i], x, b, t);
                assert(is_section_edge(out.calls[i], x, b, t));
            } else if is_shim(c) && !first_is_body(args) {
                let p = choose|p: usize| #[trigger] first_is_param(body, args, p);
                parameter_calls_are_recorded(bodies, k, b, p);
                let i = choose|i: int|
                    0 <= i < out.param_calls.len() && is_param_call(
                        #[trigger] out.param_calls[i],
                        x,
                        b,
                        p,
                    );
                assert(is_param_call(out.param_calls[i], x, b, p));
            } else {
                let t = if is_shim(c) {
                    choose|t: Name| #[trigger] is_body(args[0], t)
                } else if runs_in(bodies, c) {
                    (c.target->0)@
                } else {
                    c.path@
                };
                assert(call_runs(bodies, c, args, t));
                known_calls_are_recorded(bodies, k, b, t);
                let i = choose|i: int|
                    0 <= i < out.calls.len() && is_edge(#[trigger] out.calls[i], x, b, t);
                assert(is_edge(out.calls[i], x, b, t));
            }
        },
        _ => {},
    }
}

/// The edge is what block `b` of body `k` runs.
pub open spec fn edge_made_at(bodies: Seq<Body>, l: LinkV, k: int, b: usize) -> bool {
    &&& 0 <= k < bodies.len()
    &&& {
        ||| runs_body(bodies, bodies[k], b, l.target) && is_edge(l, seen(bodies, k), b, l.target)
        ||| runs_section(bodies[k], b, l.target) && is_section_edge(
            l,
            seen(bodies, k),
            b,
            l.target,
        )
    }
}

/// The acquisition is that of block `b` of body `k`.
pub open spec fn event_made_at(bodies: Seq<Body>, e: EventV, k: int, b: usize) -> bool {
    &&& 0 <= k < bodies.len()
    &&& {
        ||| exists|id: Name, guard: Option<usize>|
            #[trigger] takes(
                bodies,
                bodies[k],
                b,
                ClassIdV { class: e.acquires, id },
                guard,
            ) && is_acquisition(e, seen(bodies, k), b, e.acquires, guard)
        ||| e.acquires == "<critical-section>"@ && is_acquisition(
            e,
            seen(bodies, k),
            b,
            e.acquires,
            None,
        ) && exists|t: Name| #[trigger] runs_section(bodies[k], b, t)
    }
}

/// The parameter is called at the end of block `b` of body `k`.
pub open spec fn param_call_made_at(bodies: Seq<Body>, v: ParamCallV, k: int, b: usize) -> bool {
    0 <= k < bodies.len() && exists|p: usize| #[trigger]
        calls_param(bodies[k], b, p) && is_param_call(v, seen(bodies, k), b, p)
}

/// The unknown call is at the end of block `b` of body `k`.
pub open spec fn unknown_call_made_at(bodies: Seq<Body>, v: OpaqueCallV, k: int, b: usize) -> bool {
    0 <= k < bodies.len() && runs_unknown(bodies, bodies[k], b) && is_unknown_call(
        v,
        seen(bodies, k),
        b,
    )
}

/// The callable is handed on at the end of block `b` of body `k`.
pub open spec fn handing_made_at(bodies: Seq<Body>, v: ClosureArgV, k: int, b: usize) -> bool {
    0 <= k < bodies.len() && v.function == bodies[k].path@ && hands_on(
        bodies,
        bodies[k],
        b,
        v.callee,
        v.param,
        v.closure,
    )
}

/// Nothing is made up: every call edge is what some call runs.
pub proof fn edges_come_from_calls(bodies: Seq<Body>, i: int)
    requires
        0 <= i < outcome(bodies).calls.len(),
    ensures
        exists|k: int, b: usize| #[trigger]
            edge_made_at(bodies, outcome(bodies).calls[i], k, b),
{
    let cr = crate_of(bodies);
    let l = outcome(bodies).calls[i];
    lemma_output(cr, bodies);
    assert(outcome(bodies).calls.contains(l));
    let k = choose|k: int|
        0 <= k < bodies.len() && #[trigger] call_from(body_facts(cr, bodies[k]), l);
    let x = seen(bodies, k);
    lemma_found(bodies, bodies[k], bodies[k].blocks@.len());
    if exists|e: (usize, Name)| x.found.local_calls.contains(e) && l == #[trigger] local_link(x, e) {
        let e = choose|e: (usize, Name)|
            x.found.local_calls.contains(e) && l == #[trigger] local_link(x, e);
        lemma_held(x, e.0, None);
        assert(edge_made_at(bodies, l, k, e.0));
    } else {
        let e = choose|e: (usize, Name)|
            x.found.cs_enters.contains(e) && l == #[trigger] section_link(x, e);
        lemma_held(x, e.0, None);
        assert(edge_made_at(bodies, l, k, e.0));
    }
}

/// Nothing is made up: every acquisition is that of some call.
pub proof fn events_come_from_calls(bodies: Seq<Body>, i: int)
    requires
        0 <= i < outcome(bodies).events.len(),
    ensures
        exists|k: int, b: usize| #[trigger]
            event_made_at(bodies, outcome(bodies).events[i], k, b),
{
    let cr = crate_of(bodies);
    let v = outcome(bodies).events[i];
    lemma_output(cr, bodies);
    assert(outcome(bodies).events.contains(v));
    let k = choose|k: int|
        0 <= k < bodies.len() && #[trigger] event_from(body_facts(cr, bodies[k]), v);
    let x = seen(bodies, k);
    lemma_found(bodies, bodies[k], bodies[k].blocks@.len());
    if exists|a: AcquireV| x.found.acquires.contains(a) && v == #[trigger] acquire_event(x, a) {
        let a = choose|a: AcquireV|
            x.found.acquires.contains(a) && v == #[trigger] acquire_event(x, a);
        lemma_held(x, a.block, a.guard);
        assert(a.lock == ClassIdV { class: v.acquires, id: a.lock.id });
        assert(takes(
            bodies,
            bodies[k],
            a.block,
            ClassIdV { class: v.acquires, id: a.lock.id },
            a.guard,
        ));
        assert(event_made_at(bodies, v, k, a.block));
    } else {
        let e = choose|e: (usize, Name)|
            x.found.cs_enters.contains(e) && v == #[trigger] section_event(x, e);
        lemma_held(x, e.0, None);
        assert(runs_section(bodies[k], e.0, e.1));
        assert(event_made_at(bodies, v, k, e.0));
    }
}

/// Nothing is made up: every call of a parameter is one.
pub proof fn parameter_calls_come_from_calls(bodies: Seq<Body>, i: int)
    requires
        0 <= i < outcome(bodies).param_calls.len(),
    ensures
        exists|k: int, b: usize| #[trigger]
            param_call_made_at(bodies, outcome(bodies).param_calls[i], k, b),
{
    let cr = crate_of(bodies);
    let v = outcome(bodies).param_calls[i];
    lemma_output(cr, bodies);
    assert(outcome(bodies).param_calls.contains(v));
    let k = choose|k: int|
        0 <= k < bodies.len() && #[trigger] param_call_from(body_facts(cr, bodies[k]), v);
    let x = seen(bodies, k);
    lemma_found(bodies, bodies[k], bodies[k].blocks@.len());
    let e = choose|e: (usize, usize)|
        x.found.param_calls.contains(e) && v == #[trigger] param_call(x, e);
    lemma_held(x, e.0, None);
    assert(calls_param(bodies[k], e.0, e.1));
    assert(param_call_made_at(bodies, v, k, e.0));
}

/// Nothing is made up: every unknown call is one.
pub proof fn unknown_calls_come_from_calls(bodies: Seq<Body>, i: int)
    requires
        0 <= i < outcome(bodies).opaque_calls.len(),
    ensures
        exists|k: int, b: usize| #[trigger]
            unknown_call_made_at(bodies, outcome(bodies).opaque_calls[i], k, b),
{
    let cr = crate_of(bodies);
    let v = outcome(bodies).opaque_calls[i];
    lemma_output(cr, bodies);
    assert(outcome(bodies).opaque_calls.contains(v));
    let k = choose|k: int|
        0 <= k < bodies.len() && #[trigger] opaque_from(body_facts(cr, bodies[k]), v);
    let x = seen(bodies, k);
    lemma_found(bodies, bodies[k], bodies[k].blocks@.len());
    let b = choose|b: usize| x.found.opaque_calls.contains(b) && v == #[trigger] opaque_call(x, b);
    lemma_held(x, b, None);
    assert(unknown_call_made_at(bodies, v, k, b));
}

/// Nothing is made up: every callable handed on is an argument of some call.
pub proof fn callables_come_from_calls(bodies: Seq<Body>, i: int)
    requires
        0 <= i < outcome(bodies).closure_args.len(),
    ensures
        exists|k: int, b: usize| #[trigger]
            handing_made_at(bodies, outcome(bodies).closure_args[i], k, b),
{
    let cr = crate_of(bodies);
    let v = outcome(bodies).closure_args[i];
    lemma_output(cr, bodies);
    assert(outcome(bodies).closure_args.contains(v));
    let k = choose|k: int|
        0 <= k < bodies.len() && #[trigger] closure_arg_from(body_facts(cr, bodies[k]), v);
    let x = seen(bodies, k);
    let n = bodies[k].blocks@.len();
    lemma_found(bodies, bodies[k], n);
    let h = choose|h: HandedV| x.found.closure_args.contains(h) && v == #[trigger] closure_arg(x, h);
    assert(is_handed_by(bodies, bodies[k], n, h));
    let b = choose|b: usize|
        b < n && #[trigger] hands_on(bodies, bodies[k], b, h.callee, h.param, h.closure);
    assert(handing_made_at(bodies, v, k, b));
}

/// A guard is released by `mem::drop` exactly at the calls of `mem::drop` on it,
/// or on what was moved out of it.
pub proof fn guards_are_released_where_they_are_dropped(
    bodies: Seq<Body>,
    k: int,
    b: usize,
    l: usize,
)
    requires
        0 <= k < bodies.len(),
    ensures
        seen(bodies, k).found.drops.contains((b, l)) <==> b < bodies[k].blocks@.len() && releases(
            bodies[k],
            b,
            l,
        ),
{
    lemma_found(bodies, bodies[k], bodies[k].blocks@.len());
}

}
