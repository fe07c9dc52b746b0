//! What a function body does with locks.

use vstd::prelude::*;

use crate::events::{param_call_views, ParamCall, ParamCallV};
use crate::frontend::{all_same, same_names};
use crate::inherit::{link_views, Link, LinkV};
use crate::lint::classes::{
    accessor_of, accessor_summary, accessor_views, body_run, guard_class_of_ty, guard_of,
    is_analyzed, lock_of, lock_of_operand, move_chain, moved_through, no_lock, param_of,
    resolve_to_param, runs, unknown_lock, Accessor, AccessorV, CrateV, Known, Lock, HOPS,
};
use crate::lint::liveness::{guard_live, guards, is_guard, solve_live, Drops, Live};
use crate::lint::mir::{
    Block, block_in, operand_in, operand_ty, place_in, place_of, Body, Callee, Operand, Place,
    TermKind, Ty, TyKind,
};
use crate::lint::paths::{
    calls_value, drops, enters_section, is_critical_section_enter, is_fn_call_shim, is_lock_acquire,
    is_mem_drop, is_result_unwrap, stripped, takes_lock, unwraps,
};
use crate::model::{event_views, opt_name, Event, EventV};
use crate::namemap::NameMap;
use crate::ordset::{sorted, NameSet};
use crate::text::{names, str_eq, Name};

verus! {

/// The class of a lock and the identity of the instance.
pub struct ClassIdV {
    pub class: Name,
    pub id: Name,
}

/// An acquisition: the block that ends with the call, the lock, and the local
/// that the guard is returned in.
pub struct AcquireV {
    pub block: usize,
    pub lock: ClassIdV,
    pub guard: Option<usize>,
}

/// A callable that is handed on.
pub struct HandedV {
    pub callee: Name,
    pub param: nat,
    pub closure: Name,
}

/// What the terminators of a body do.
pub struct FoundV {
    pub acquires: Seq<AcquireV>,
    /// The lock of each guard.
    pub guard_class: Map<usize, ClassIdV>,
    /// The lock of each result of a lock call, from which the guard is unwrapped.
    pub result_class: Map<usize, ClassIdV>,
    /// Calls of bodies of the crate.
    pub local_calls: Seq<(usize, Name)>,
    /// Critical sections, with the body that runs inside.
    pub cs_enters: Seq<(usize, Name)>,
    /// Calls of the function's own parameters.
    pub param_calls: Seq<(usize, usize)>,
    pub closure_args: Seq<HandedV>,
    /// Calls of which it is not known what they run.
    pub opaque_calls: Seq<usize>,
    /// Guards released by `mem::drop`.
    pub drops: Drops,
    /// The first reason why a class may not be the only one of its lock.
    pub reason: Option<Name>,
}

pub open spec fn nothing_found() -> FoundV {
    FoundV {
        acquires: Seq::empty(),
        guard_class: Map::empty(),
        result_class: Map::empty(),
        local_calls: Seq::empty(),
        cs_enters: Seq::empty(),
        param_calls: Seq::empty(),
        closure_args: Seq::empty(),
        opaque_calls: Seq::empty(),
        drops: Seq::empty(),
        reason: None,
    }
}

/// The first reason counts.
pub open spec fn first_reason(a: Option<Name>, b: Option<Name>) -> Option<Name> {
    match a {
        Some(r) => Some(r),
        None => b,
    }
}

/// The closure or function that an operand is, by the path of its body.
pub open spec fn callable_body(o: Operand) -> Option<Name> {
    match operand_ty(o).kind {
        TyKind::Body(path) => Some(path@),
        _ => None,
    }
}

/// The name of a callee: that of the body it runs, where that is under analysis.
pub open spec fn callee_name(cr: CrateV, c: Callee) -> Name {
    if is_analyzed(cr, c) {
        runs(c)
    } else {
        c.path@
    }
}

/// The callables among the first `n` arguments of a call. One that has no name is
/// recorded as unknown, so that another call with a known one cannot make the
/// parameter look resolved.
pub open spec fn handed_on(cr: CrateV, c: Callee, args: Seq<Operand>, n: int) -> Seq<HandedV>
    decreases n,
{
    if 0 < n <= args.len() {
        let before = handed_on(cr, c, args, n - 1);
        match callable_body(args[n - 1]) {
            Some(closure) => before.push(
                HandedV { callee: callee_name(cr, c), param: n as nat, closure },
            ),
            None => if operand_ty(args[n - 1]).kind is Callable {
                before.push(
                    HandedV {
                        callee: callee_name(cr, c),
                        param: n as nat,
                        closure: "<unknown>"@,
                    },
                )
            } else {
                before
            },
        }
    } else {
        Seq::empty()
    }
}

/// The locals released when `mem::drop` at the end of block `b` is called with
/// the first `n` arguments.
pub open spec fn released(body: Body, b: usize, args: Seq<Operand>, n: int) -> Drops
    decreases n,
{
    if 0 < n <= args.len() {
        let before = released(body, b, args, n - 1);
        match place_of(args[n - 1]) {
            Some(p) => before + moved_through(body, p.local, HOPS as nat).map_values(
                |l: usize| (b, l),
            ),
            None => before,
        }
    } else {
        Seq::empty()
    }
}

/// A call of a method that takes a lock.
pub open spec fn scan_lock(
    cr: CrateV,
    body: Body,
    f: FoundV,
    b: usize,
    args: Seq<Operand>,
    dest: Place,
) -> FoundV {
    let lock = if args.len() > 0 {
        lock_of(cr, body, args[0])
    } else {
        unknown_lock()
    };
    let k = ClassIdV { class: lock.class, id: lock.id };
    FoundV {
        result_class: f.result_class.insert(dest.local, k),
        acquires: f.acquires.push(
            AcquireV {
                block: b,
                lock: k,
                guard: if is_guard(body, dest.local) {
                    Some(dest.local)
                } else {
                    None
                },
            },
        ),
        reason: first_reason(f.reason, lock.reason),
        ..f
    }
}

/// A call of any other function. A method of a trait stays virtual unless it is
/// known which body runs; where that body is not under analysis, the call is
/// opaque.
pub open spec fn scan_other(
    cr: CrateV,
    f: FoundV,
    b: usize,
    c: Callee,
    args: Seq<Operand>,
) -> FoundV {
    let f1 = FoundV {
        closure_args: f.closure_args + handed_on(cr, c, args, args.len() as int),
        ..f
    };
    if is_analyzed(cr, c) {
        FoundV { local_calls: f1.local_calls.push((b, runs(c))), ..f1 }
    } else if c.local && c.of_trait {
        FoundV { opaque_calls: f1.opaque_calls.push(b), ..f1 }
    } else if c.local {
        FoundV { local_calls: f1.local_calls.push((b, c.path@)), ..f1 }
    } else {
        f1
    }
}

/// A call of a callable value: of a known closure or function, of a parameter,
/// or of something unknown.
pub open spec fn scan_value_call(body: Body, f: FoundV, b: usize, args: Seq<Operand>) -> FoundV {
    if args.len() > 0 && callable_body(args[0]) is Some {
        FoundV { local_calls: f.local_calls.push((b, callable_body(args[0])->0)), ..f }
    } else if args.len() > 0 && place_of(args[0]) is Some && param_of(
        body,
        (place_of(args[0])->0).local,
        HOPS as nat,
    ) is Some {
        FoundV {
            param_calls: f.param_calls.push(
                (b, param_of(body, (place_of(args[0])->0).local, HOPS as nat)->0),
            ),
            ..f
        }
    } else {
        FoundV { opaque_calls: f.opaque_calls.push(b), ..f }
    }
}

/// A call of a named function at the end of block `b`.
pub open spec fn scan_call(
    cr: CrateV,
    body: Body,
    f: FoundV,
    b: usize,
    c: Callee,
    args: Seq<Operand>,
    dest: Place,
) -> FoundV {
    let p = stripped(c.path@);
    if unwraps(p) {
        if args.len() > 0 && place_of(args[0]) is Some && f.result_class.contains_key(
            (place_of(args[0])->0).local,
        ) {
            FoundV {
                guard_class: f.guard_class.insert(
                    dest.local,
                    f.result_class[(place_of(args[0])->0).local],
                ),
                ..f
            }
        } else {
            f
        }
    } else if drops(p) {
        FoundV { drops: f.drops + released(body, b, args, args.len() as int), ..f }
    } else if calls_value(p) {
        scan_value_call(body, f, b, args)
    } else if enters_section(p) {
        if args.len() > 0 && callable_body(args[0]) is Some {
            FoundV { cs_enters: f.cs_enters.push((b, callable_body(args[0])->0)), ..f }
        } else {
            FoundV { opaque_calls: f.opaque_calls.push(b), ..f }
        }
    } else if takes_lock(p) {
        scan_lock(cr, body, f, b, args, dest)
    } else {
        scan_other(cr, f, b, c, args)
    }
}

/// The terminator of block `b`.
pub open spec fn scan_block(cr: CrateV, body: Body, f: FoundV, b: usize) -> FoundV {
    match body.blocks@[b as int].terminator.kind {
        TermKind::Call { callee, args, dest } => match callee {
            Some(c) => scan_call(cr, body, f, b, c, args@, dest),
            None => FoundV { opaque_calls: f.opaque_calls.push(b), ..f },
        },
        _ => f,
    }
}

/// The terminators of the first `n` blocks.
pub open spec fn scanned(cr: CrateV, body: Body, n: nat) -> FoundV
    decreases n,
{
    if n == 0 {
        nothing_found()
    } else {
        scan_block(cr, body, scanned(cr, body, (n - 1) as nat), (n - 1) as usize)
    }
}

/// The guards that acquisitions return directly get the lock of the acquisition.
pub open spec fn with_returned(m: Map<usize, ClassIdV>, acquires: Seq<AcquireV>) -> Map<
    usize,
    ClassIdV,
>
    decreases acquires.len(),
{
    if acquires.len() == 0 {
        m
    } else {
        let before = with_returned(m, acquires.drop_last());
        match acquires.last().guard {
            Some(l) => before.insert(l, acquires.last().lock),
            None => before,
        }
    }
}

/// The first of the locals that has a lock, and its lock.
pub open spec fn first_known(m: Map<usize, ClassIdV>, chain: Seq<usize>) -> Option<ClassIdV>
    decreases chain.len(),
{
    if chain.len() == 0 {
        None
    } else if m.contains_key(chain[0]) {
        Some(m[chain[0]])
    } else {
        first_known(m, chain.drop_first())
    }
}

/// The guards among the first `n` locals that have no lock get the lock of what
/// they were moved out of.
pub open spec fn with_moved(body: Body, m: Map<usize, ClassIdV>, n: nat) -> Map<usize, ClassIdV>
    decreases n,
{
    if n == 0 {
        m
    } else {
        let before = with_moved(body, m, (n - 1) as nat);
        let l = (n - 1) as usize;
        if is_guard(body, l) && !before.contains_key(l) {
            match first_known(before, moved_through(body, l, HOPS as nat)) {
                Some(k) => before.insert(l, k),
                None => before,
            }
        } else {
            before
        }
    }
}

/// The lock of each guard.
pub open spec fn guard_locks(body: Body, f: FoundV) -> Map<usize, ClassIdV> {
    with_moved(body, with_returned(f.guard_class, f.acquires), body.locals@.len())
}

/// The classes held at the end of block `b`, apart from that of the guard
/// `except`.
pub open spec fn held_at(
    body: Body,
    drops: Drops,
    locks: Map<usize, ClassIdV>,
    b: usize,
    except: Option<usize>,
) -> Set<Name> {
    Set::new(
        |c: Name|
            exists|l: usize|
                #[trigger] guard_live(body, drops, b, l) && Some(l) != except
                    && locks.contains_key(l) && locks[l].class == c,
    )
}

/// The local that the call at the end of block `b` returns to.
pub open spec fn returns_to(body: Body, b: usize) -> Option<usize> {
    if b < body.blocks@.len() {
        match body.blocks@[b as int].terminator.kind {
            TermKind::Call { callee, args, dest } => Some(dest.local),
            _ => None,
        }
    } else {
        None
    }
}

/// The classes of the locks that are taken into `l`.
pub open spec fn taken_into(body: Body, acquires: Seq<AcquireV>, l: usize) -> Seq<Name>
    decreases acquires.len(),
{
    if acquires.len() == 0 {
        Seq::empty()
    } else {
        let before = taken_into(body, acquires.drop_last(), l);
        if returns_to(body, acquires.last().block) == Some(l) {
            before.push(acquires.last().lock.class)
        } else {
            before
        }
    }
}

/// The block ends with a call that unwraps a result: where to and where from.
pub open spec fn unwrapping(b: Block) -> Option<(usize, usize)> {
    match b.terminator.kind {
        TermKind::Call { callee: Some(c), args, dest } => if unwraps(stripped(c.path@))
            && args@.len() > 0 && place_of(args@[0]) is Some {
            Some((dest.local, (place_of(args@[0])->0).local))
        } else {
            None
        },
        _ => None,
    }
}

/// The classes of the locks that are unwrapped into `l` in the first `n` blocks.
pub open spec fn unwrapped_into(
    body: Body,
    acquires: Seq<AcquireV>,
    n: int,
    l: usize,
) -> Seq<Name>
    decreases n,
{
    if 0 < n <= body.blocks@.len() {
        let before = unwrapped_into(body, acquires, n - 1, l);
        match unwrapping(body.blocks@[n - 1]) {
            Some((to, from)) => if to == l {
                before + taken_into(body, acquires, from)
            } else {
                before
            },
            None => before,
        }
    } else {
        Seq::empty()
    }
}

/// The classes of the locks that the definitions of the locals give them.
pub open spec fn classes_given(body: Body, acquires: Seq<AcquireV>, locals: Seq<usize>) -> Seq<Name>
    decreases locals.len(),
{
    if locals.len() == 0 {
        Seq::empty()
    } else {
        let l = locals.last();
        classes_given(body, acquires, locals.drop_last()) + taken_into(body, acquires, l)
            + unwrapped_into(body, acquires, body.blocks@.len() as int, l)
    }
}

/// The definitions of the guard, and of what it was moved out of, give it locks
/// of different classes.
pub open spec fn is_doubtful(body: Body, acquires: Seq<AcquireV>, l: usize) -> bool {
    !all_same(classes_given(body, acquires, moved_through(body, l, HOPS as nat)))
}

/// The guard `l` is live at the end of block `b`, and it is not known which lock
/// it is of.
pub open spec fn is_unknown(
    body: Body,
    drops: Drops,
    acquires: Seq<AcquireV>,
    locks: Map<usize, ClassIdV>,
    b: usize,
    l: usize,
) -> bool {
    guard_live(body, drops, b, l) && (!locks.contains_key(l) || is_doubtful(body, acquires, l))
}

/// The least guard below `n` that is live at the end of block `b` and of which it
/// is not known which lock it is of.
pub open spec fn first_unknown(
    body: Body,
    drops: Drops,
    acquires: Seq<AcquireV>,
    locks: Map<usize, ClassIdV>,
    b: usize,
    n: nat,
) -> Option<usize>
    decreases n,
{
    if n == 0 {
        None
    } else {
        match first_unknown(body, drops, acquires, locks, b, (n - 1) as nat) {
            Some(l) => Some(l),
            None => if is_unknown(body, drops, acquires, locks, b, (n - 1) as usize) {
                Some((n - 1) as usize)
            } else {
                None
            },
        }
    }
}

/// The first of the sites at which a guard is held whose lock is not known.
pub open spec fn unknown_held(
    body: Body,
    drops: Drops,
    acquires: Seq<AcquireV>,
    locks: Map<usize, ClassIdV>,
    sites: Seq<usize>,
) -> Option<Name>
    decreases sites.len(),
{
    if sites.len() == 0 {
        None
    } else {
        match unknown_held(body, drops, acquires, locks, sites.drop_last()) {
            Some(r) => Some(r),
            None => match first_unknown(body, drops, acquires, locks, sites.last(), body.locals@.len()) {
                None => None,
                Some(l) => {
                    let g = guard_of(body.locals@[l as int])->0;
                    Some(
                        "in "@ + body.path@ + ": a "@ + g.kind + "<"@ + g.data
                            + "> guard whose lock class could not                      be determined is held at "@
                            + body.blocks@[sites.last() as int].terminator.site@
                            + ", so that held-set is missing an entry"@,
                    )
                },
            },
        }
    }
}

/// The sites at which an unknown lock would cost an ordering edge.
pub open spec fn sites_of(f: FoundV) -> Seq<usize> {
    f.acquires.map_values(|a: AcquireV| a.block) + f.local_calls.map_values(
        |c: (usize, Name)| c.0,
    ) + f.param_calls.map_values(|c: (usize, usize)| c.0) + f.cs_enters.map_values(
        |c: (usize, Name)| c.0,
    ) + f.opaque_calls
}

/// `function` hands `closure` on as argument number `param` of `callee`.
pub struct ClosureArg {
    pub function: String,
    pub callee: String,
    pub param: usize,
    pub closure: String,
}

/// The mathematical value of a [`ClosureArg`].
pub struct ClosureArgV {
    pub function: Name,
    pub callee: Name,
    pub param: nat,
    pub closure: Name,
}

/// A call of which it is not known what it runs. Ordering edges may be lost here,
/// so a lock held at it, by the function or by a caller, makes the verdict
/// inconclusive.
pub struct OpaqueCall {
    pub function: String,
    pub site: String,
    pub held: Vec<String>,
}

/// The mathematical value of an [`OpaqueCall`].
pub struct OpaqueCallV {
    pub function: Name,
    pub site: Name,
    pub held: Seq<Name>,
}

impl View for ClosureArg {
    type V = ClosureArgV;

    open spec fn view(&self) -> ClosureArgV {
        ClosureArgV {
            function: self.function@,
            callee: self.callee@,
            param: self.param as nat,
            closure: self.closure@,
        }
    }
}

impl View for OpaqueCall {
    type V = OpaqueCallV;

    open spec fn view(&self) -> OpaqueCallV {
        OpaqueCallV { function: self.function@, site: self.site@, held: names(self.held@) }
    }
}

pub open spec fn closure_arg_views(v: Seq<ClosureArg>) -> Seq<ClosureArgV> {
    v.map_values(|x: ClosureArg| x@)
}

pub open spec fn opaque_call_views(v: Seq<OpaqueCall>) -> Seq<OpaqueCallV> {
    v.map_values(|x: OpaqueCall| x@)
}

/// What the front end has found in a crate.
pub struct ProgramOut {
    pub events: Vec<Event>,
    pub calls: Vec<Link>,
    pub param_calls: Vec<ParamCall>,
    pub closure_args: Vec<ClosureArg>,
    pub opaque_calls: Vec<OpaqueCall>,
    /// For each class the identities of its instances. Two or more make a
    /// cross-instance inversion possible; one means reentrancy.
    pub class_instances: NameMap<NameSet>,
    /// Why the absence of a deadlock would not be conclusive.
    pub incomplete: Option<String>,
}

/// The mathematical value of a [`ProgramOut`].
pub struct OutV {
    pub events: Seq<EventV>,
    pub calls: Seq<LinkV>,
    pub param_calls: Seq<ParamCallV>,
    pub closure_args: Seq<ClosureArgV>,
    pub opaque_calls: Seq<OpaqueCallV>,
    pub class_instances: Map<Name, Set<Name>>,
    pub incomplete: Option<Name>,
}

/// The identities that a map holds.
pub open spec fn identities(m: Map<Name, NameSet>) -> Map<Name, Set<Name>> {
    m.map_values(|s: NameSet| s@)
}

impl ProgramOut {
    pub open spec fn wf(&self) -> bool {
        &&& self.class_instances.wf()
        &&& forall|c: Name| #[trigger]
            self.class_instances@.contains_key(c) ==> self.class_instances@[c].wf()
    }
}

impl View for ProgramOut {
    type V = OutV;

    open spec fn view(&self) -> OutV {
        OutV {
            events: event_views(self.events@),
            calls: link_views(self.calls@),
            param_calls: param_call_views(self.param_calls@),
            closure_args: closure_arg_views(self.closure_args@),
            opaque_calls: opaque_call_views(self.opaque_calls@),
            class_instances: identities(self.class_instances@),
            incomplete: opt_name(self.incomplete),
        }
    }
}

/// Nothing found.
pub open spec fn no_output() -> OutV {
    OutV {
        events: Seq::empty(),
        calls: Seq::empty(),
        param_calls: Seq::empty(),
        closure_args: Seq::empty(),
        opaque_calls: Seq::empty(),
        class_instances: Map::empty(),
        incomplete: None,
    }
}

/// One more instance of a class.
pub open spec fn with_instance(m: Map<Name, Set<Name>>, class: Name, id: Name) -> Map<
    Name,
    Set<Name>,
> {
    if m.contains_key(class) {
        m.insert(class, m[class].insert(id))
    } else {
        m.insert(class, Set::empty().insert(id))
    }
}

/// The instances of the acquisitions.
pub open spec fn with_instances(m: Map<Name, Set<Name>>, acquires: Seq<AcquireV>) -> Map<
    Name,
    Set<Name>,
>
    decreases acquires.len(),
{
    if acquires.len() == 0 {
        m
    } else {
        with_instance(
            with_instances(m, acquires.drop_last()),
            acquires.last().lock.class,
            acquires.last().lock.id,
        )
    }
}

/// The synthetic class of the critical section.
pub open spec fn section_class() -> Name {
    "<critical-section>"@
}

/// There is one critical section.
pub open spec fn with_section(m: Map<Name, Set<Name>>, n: nat) -> Map<Name, Set<Name>>
    decreases n,
{
    if n == 0 {
        m
    } else {
        with_instance(with_section(m, (n - 1) as nat), section_class(), "<global>"@)
    }
}

/// What a body does with locks, in terms of the classes held at its calls.
pub struct BodyV {
    pub body: Body,
    pub found: FoundV,
    pub locks: Map<usize, ClassIdV>,
}

pub open spec fn site_of(x: BodyV, b: usize) -> Name {
    x.body.blocks@[b as int].terminator.site@
}

/// The classes held at the end of block `b`.
pub open spec fn held_names(x: BodyV, b: usize, except: Option<usize>) -> Seq<Name> {
    sorted(held_at(x.body, x.found.drops, x.locks, b, except))
}

pub open spec fn acquire_event(x: BodyV, a: AcquireV) -> EventV {
    EventV {
        function: x.body.path@,
        site: site_of(x, a.block),
        held: held_names(x, a.block, a.guard),
        acquires: a.lock.class,
    }
}

/// Entering a critical section is an acquisition of the one section.
pub open spec fn section_event(x: BodyV, e: (usize, Name)) -> EventV {
    EventV {
        function: x.body.path@,
        site: site_of(x, e.0),
        held: held_names(x, e.0, None),
        acquires: section_class(),
    }
}

pub open spec fn local_link(x: BodyV, e: (usize, Name)) -> LinkV {
    LinkV { source: x.body.path@, target: e.1, held: held_names(x, e.0, None) }
}

/// The closure runs with the section, and everything already held, held.
pub open spec fn section_link(x: BodyV, e: (usize, Name)) -> LinkV {
    LinkV {
        source: x.body.path@,
        target: e.1,
        held: sorted(
            held_at(x.body, x.found.drops, x.locks, e.0, None).insert(section_class()),
        ),
    }
}

pub open spec fn param_call(x: BodyV, e: (usize, usize)) -> ParamCallV {
    ParamCallV {
        function: x.body.path@,
        param: e.1 as nat,
        held: held_names(x, e.0, None),
    }
}

pub open spec fn closure_arg(x: BodyV, h: HandedV) -> ClosureArgV {
    ClosureArgV {
        function: x.body.path@,
        callee: h.callee,
        param: h.param,
        closure: h.closure,
    }
}

pub open spec fn opaque_call(x: BodyV, b: usize) -> OpaqueCallV {
    OpaqueCallV {
        function: x.body.path@,
        site: site_of(x, b),
        held: held_names(x, b, None),
    }
}

/// The output with that of one more body.
pub open spec fn with_body(out: OutV, x: BodyV) -> OutV {
    let f = x.found;
    OutV {
        events: out.events + f.acquires.map_values(|a: AcquireV| acquire_event(x, a))
            + f.cs_enters.map_values(|e: (usize, Name)| section_event(x, e)),
        calls: out.calls + f.local_calls.map_values(|e: (usize, Name)| local_link(x, e))
            + f.cs_enters.map_values(|e: (usize, Name)| section_link(x, e)),
        param_calls: out.param_calls + f.param_calls.map_values(
            |e: (usize, usize)| param_call(x, e),
        ),
        closure_args: out.closure_args + f.closure_args.map_values(|h: HandedV| closure_arg(x, h)),
        opaque_calls: out.opaque_calls + f.opaque_calls.map_values(|b: usize| opaque_call(x, b)),
        class_instances: with_section(
            with_instances(out.class_instances, f.acquires),
            f.cs_enters.len(),
        ),
        incomplete: first_reason(
            first_reason(out.incomplete, f.reason),
            unknown_held(x.body, f.drops, f.acquires, x.locks, sites_of(f)),
        ),
    }
}

/// What a body does with locks.
pub open spec fn body_facts(cr: CrateV, body: Body) -> BodyV {
    let found = scanned(cr, body, body.blocks@.len());
    let locks = guard_locks(body, found);
    BodyV { body, found: FoundV { guard_class: locks, ..found }, locks }
}

/// The body as an accessor. A closure is none.
pub open spec fn summary_of(body: Body) -> Option<AccessorV> {
    if body.is_closure {
        None
    } else {
        accessor_of(body)
    }
}

/// The bodies that bear the path of body `i` do what that does: the path tells
/// which accessor it is.
pub open spec fn is_unambiguous(bodies: Seq<Body>, i: int) -> bool {
    forall|j: int|
        0 <= j < bodies.len() && (#[trigger] bodies[j]).path@ == bodies[i].path@ ==> summary_of(
            bodies[j],
        ) == summary_of(bodies[i])
}

/// The field accessors among the first `n` bodies, by their paths.
pub open spec fn accessors_in(bodies: Seq<Body>, n: int) -> Map<Name, AccessorV>
    decreases n,
{
    if 0 < n <= bodies.len() {
        let before = accessors_in(bodies, n - 1);
        if summary_of(bodies[n - 1]) is Some && is_unambiguous(bodies, n - 1) {
            before.insert(bodies[n - 1].path@, summary_of(bodies[n - 1])->0)
        } else {
            before
        }
    } else {
        Map::empty()
    }
}

/// The paths of the bodies.
pub open spec fn paths_in(bodies: Seq<Body>) -> Set<Name>
    decreases bodies.len(),
{
    if bodies.len() == 0 {
        Set::empty()
    } else {
        paths_in(bodies.drop_last()).insert(bodies.last().path@)
    }
}

/// What is known of the crate before its bodies are scanned.
pub open spec fn crate_of(bodies: Seq<Body>) -> CrateV {
    CrateV {
        accessors: accessors_in(bodies, bodies.len() as int),
        bodies: paths_in(bodies),
    }
}

/// The output for the bodies `q` of a crate.
pub open spec fn output_of(cr: CrateV, q: Seq<Body>) -> OutV
    decreases q.len(),
{
    if q.len() == 0 {
        no_output()
    } else {
        with_body(output_of(cr, q.drop_last()), body_facts(cr, q.last()))
    }
}

/// The name of a callee.
fn callee_name_of(cr: &Known, c: &Callee) -> (r: String)
    ensures
        r@ == callee_name(cr.value(), *c),
{
    if cr.analyzes(c) {
        body_run(c).clone()
    } else {
        c.path.clone()
    }
}

/// Appends the classes of the locks that are taken into `l`.
fn push_taken(body: &Body, acquires: &Vec<Acquire>, l: usize, out: &mut Vec<String>)
    ensures
        names(final(out)@) == names(old(out)@) + taken_into(*body, acquire_values(acquires@), l),
{
    let ghost start = names(out@);
    let ghost q = acquire_values(acquires@);
    let mut i: usize = 0;
    assert(q.take(0) =~= Seq::empty());
    assert(names(out@) =~= start + taken_into(*body, q.take(0), l));
    while i < acquires.len()
        invariant
            q == acquire_values(acquires@),
            i <= acquires@.len(),
            names(out@) == start + taken_into(*body, q.take(i as int), l),
        decreases acquires@.len() - i,
    {
        assert(q.take(i + 1).drop_last() =~= q.take(i as int));
        assert(q.take(i + 1).last() == acquires@[i as int].value());
        let ghost before = names(out@);
        let b: usize = acquires[i].block;
        if b < body.blocks.len() {
            match &body.blocks[b].terminator.kind {
                TermKind::Call { callee: _, args: _, dest } => {
                    if dest.local == l {
                        out.push(acquires[i].lock.class.clone());
                        assert(names(out@) =~= before.push(acquires@[i as int].lock.class@));
                    }
                },
                _ => {},
            }
        }
        i = i + 1;
        assert(names(out@) =~= start + taken_into(*body, q.take(i as int), l));
    }
    assert(q.take(i as int) =~= q);
}

/// The local that the block unwraps a result into, and the one it unwraps.
fn unwrapped(b: &Block) -> (r: Option<(usize, usize)>)
    ensures
        r == unwrapping(*b),
{
    match &b.terminator.kind {
        TermKind::Call { callee: Some(c), args, dest } => {
            if is_result_unwrap(c.path.as_str()) && args.len() > 0 {
                match args[0].place() {
                    Some(p) => Some((dest.local, p.local)),
                    None => None,
                }
            } else {
                None
            }
        },
        _ => None,
    }
}

/// Appends the classes of the locks that are unwrapped into `l`.
fn push_unwrapped(body: &Body, acquires: &Vec<Acquire>, l: usize, out: &mut Vec<String>)
    ensures
        names(final(out)@) == names(old(out)@) + unwrapped_into(
            *body,
            acquire_values(acquires@),
            body.blocks@.len() as int,
            l,
        ),
{
    let ghost start = names(out@);
    let ghost q = acquire_values(acquires@);
    let mut b: usize = 0;
    assert(names(out@) =~= start + unwrapped_into(*body, q, 0, l));
    while b < body.blocks.len()
        invariant
            q == acquire_values(acquires@),
            b <= body.blocks@.len(),
            names(out@) == start + unwrapped_into(*body, q, b as int, l),
        decreases body.blocks@.len() - b,
    {
        if let Some((to, from)) = unwrapped(&body.blocks[b]) {
            if to == l {
                push_taken(body, acquires, from, out);
            }
        }
        b = b + 1;
        assert(names(out@) =~= start + unwrapped_into(*body, q, b as int, l));
    }
}

/// Whether the definitions of the guard, and of what it was moved out of, give it
/// locks of different classes.
fn doubtful(body: &Body, acquires: &Vec<Acquire>, l: usize) -> (r: bool)
    ensures
        r == is_doubtful(*body, acquire_values(acquires@), l),
{
    let chain = move_chain(body, l);
    let ghost q = acquire_values(acquires@);
    let mut given: Vec<String> = Vec::new();
    let mut i: usize = 0;
    assert(chain@.take(0) =~= Seq::empty());
    assert(names(given@) =~= Seq::empty());
    while i < chain.len()
        invariant
            q == acquire_values(acquires@),
            i <= chain@.len(),
            names(given@) == classes_given(*body, q, chain@.take(i as int)),
        decreases chain@.len() - i,
    {
        assert(chain@.take(i + 1).drop_last() =~= chain@.take(i as int));
        assert(chain@.take(i + 1).last() == chain@[i as int]);
        push_taken(body, acquires, chain[i], &mut given);
        push_unwrapped(body, acquires, chain[i], &mut given);
        i = i + 1;
    }
    assert(chain@.take(i as int) =~= chain@);
    !same_names(&given)
}

/// The class of a lock and the identity of the instance.
struct ClassId {
    class: String,
    id: String,
}

impl ClassId {
    spec fn value(&self) -> ClassIdV {
        ClassIdV { class: self.class@, id: self.id@ }
    }

    fn copy(&self) -> (r: ClassId)
        ensures
            r.value() == self.value(),
    {
        ClassId { class: self.class.clone(), id: self.id.clone() }
    }
}

/// The locks of locals.
struct Slots {
    slots: Vec<Option<ClassId>>,
}

impl Slots {
    spec fn value(&self) -> Map<usize, ClassIdV> {
        Map::new(
            |l: usize| l < self.slots@.len() && self.slots@[l as int] is Some,
            |l: usize| (self.slots@[l as int]->0).value(),
        )
    }

    fn new(n: usize) -> (r: Slots)
        ensures
            r.slots@.len() == n,
            r.value() == Map::<usize, ClassIdV>::empty(),
    {
        let mut slots: Vec<Option<ClassId>> = Vec::new();
        let mut i: usize = 0;
        while i < n
            invariant
                i <= n,
                slots@.len() == i,
                forall|k: int| 0 <= k < i ==> #[trigger] slots@[k] is None,
            decreases n - i,
        {
            slots.push(None);
            i = i + 1;
        }
        let r = Slots { slots };
        assert(r.value() =~= Map::empty());
        r
    }

    fn get(&self, l: usize) -> (r: Option<ClassId>)
        ensures
            match r {
                Some(k) => self.value().contains_key(l) && k.value() == self.value()[l],
                None => !self.value().contains_key(l),
            },
    {
        if l < self.slots.len() {
            match &self.slots[l] {
                Some(k) => Some(k.copy()),
                None => None,
            }
        } else {
            None
        }
    }

    fn set(&mut self, l: usize, k: ClassId)
        requires
            l < old(self).slots@.len(),
        ensures
            final(self).slots@.len() == old(self).slots@.len(),
            final(self).value() == old(self).value().insert(l, k.value()),
    {
        let ghost before = self.value();
        self.slots.set(l, Some(k));
        assert(self.value() =~= before.insert(l, k.value()));
    }
}

/// An acquisition.
struct Acquire {
    block: usize,
    lock: ClassId,
    guard: Option<usize>,
}

impl Acquire {
    spec fn value(&self) -> AcquireV {
        AcquireV { block: self.block, lock: self.lock.value(), guard: self.guard }
    }
}

/// A callable that is handed on.
struct Handed {
    callee: String,
    param: usize,
    closure: String,
}

impl Handed {
    spec fn value(&self) -> HandedV {
        HandedV { callee: self.callee@, param: self.param as nat, closure: self.closure@ }
    }
}

spec fn acquire_values(v: Seq<Acquire>) -> Seq<AcquireV> {
    v.map_values(|a: Acquire| a.value())
}

spec fn handed_values(v: Seq<Handed>) -> Seq<HandedV> {
    v.map_values(|h: Handed| h.value())
}

spec fn call_values(v: Seq<(usize, String)>) -> Seq<(usize, Name)> {
    v.map_values(|c: (usize, String)| (c.0, c.1@))
}

/// What the terminators of a body do.
struct Found {
    acquires: Vec<Acquire>,
    guard_class: Slots,
    result_class: Slots,
    local_calls: Vec<(usize, String)>,
    cs_enters: Vec<(usize, String)>,
    param_calls: Vec<(usize, usize)>,
    closure_args: Vec<Handed>,
    opaque_calls: Vec<usize>,
    drops: Vec<(usize, usize)>,
    reason: Option<String>,
}

impl Found {
    spec fn shaped(&self, body: Body) -> bool {
        &&& self.guard_class.slots@.len() == body.locals@.len()
        &&& self.result_class.slots@.len() == body.locals@.len()
    }

    spec fn value(&self) -> FoundV {
        FoundV {
            acquires: acquire_values(self.acquires@),
            guard_class: self.guard_class.value(),
            result_class: self.result_class.value(),
            local_calls: call_values(self.local_calls@),
            cs_enters: call_values(self.cs_enters@),
            param_calls: self.param_calls@,
            closure_args: handed_values(self.closure_args@),
            opaque_calls: self.opaque_calls@,
            drops: self.drops@,
            reason: opt_name(self.reason),
        }
    }

    fn new(n: usize) -> (r: Found)
        ensures
            r.value() == nothing_found(),
            r.guard_class.slots@.len() == n,
            r.result_class.slots@.len() == n,
    {
        let r = Found {
            acquires: Vec::new(),
            guard_class: Slots::new(n),
            result_class: Slots::new(n),
            local_calls: Vec::new(),
            cs_enters: Vec::new(),
            param_calls: Vec::new(),
            closure_args: Vec::new(),
            opaque_calls: Vec::new(),
            drops: Vec::new(),
            reason: None,
        };
        assert(acquire_values(r.acquires@) =~= Seq::empty());
        assert(call_values(r.local_calls@) =~= Seq::empty());
        assert(call_values(r.cs_enters@) =~= Seq::empty());
        assert(handed_values(r.closure_args@) =~= Seq::empty());
        r
    }

    fn add_local_call(&mut self, body: &Body, b: usize, path: String)
        requires
            old(self).shaped(*body),
        ensures
            final(self).shaped(*body),
            final(self).value() == (FoundV {
                local_calls: old(self).value().local_calls.push((b, path@)),
                ..old(self).value()
            }),
    {
        let ghost before = call_values(self.local_calls@);
        self.local_calls.push((b, path));
        assert(call_values(self.local_calls@) =~= before.push((b, path@)));
    }

    fn add_section(&mut self, body: &Body, b: usize, path: String)
        requires
            old(self).shaped(*body),
        ensures
            final(self).shaped(*body),
            final(self).value() == (FoundV {
                cs_enters: old(self).value().cs_enters.push((b, path@)),
                ..old(self).value()
            }),
    {
        let ghost before = call_values(self.cs_enters@);
        self.cs_enters.push((b, path));
        assert(call_values(self.cs_enters@) =~= before.push((b, path@)));
    }

    fn add_opaque(&mut self, body: &Body, b: usize)
        requires
            old(self).shaped(*body),
        ensures
            final(self).shaped(*body),
            final(self).value() == (FoundV {
                opaque_calls: old(self).value().opaque_calls.push(b),
                ..old(self).value()
            }),
    {
        self.opaque_calls.push(b);
    }

    fn add_lock(&mut self, body: &Body, b: usize, lock: Lock, dest: usize)
        requires
            old(self).shaped(*body),
            dest < body.locals@.len(),
        ensures
            final(self).shaped(*body),
            final(self).value() == ({
                let k = ClassIdV { class: lock@.class, id: lock@.id };
                FoundV {
                    result_class: old(self).value().result_class.insert(dest, k),
                    acquires: old(self).value().acquires.push(
                        AcquireV {
                            block: b,
                            lock: k,
                            guard: if is_guard(*body, dest) {
                                Some(dest)
                            } else {
                                None
                            },
                        },
                    ),
                    reason: first_reason(old(self).value().reason, lock@.reason),
                    ..old(self).value()
                }
            }),
    {
        let ghost before = acquire_values(self.acquires@);
        let guard: Option<usize> = if guard_class_of_ty(&body.locals[dest]).is_some() {
            Some(dest)
        } else {
            None
        };
        let k = ClassId { class: lock.class, id: lock.id };
        self.result_class.set(dest, k.copy());
        let a = Acquire { block: b, lock: k, guard };
        self.acquires.push(a);
        assert(acquire_values(self.acquires@) =~= before.push(a.value()));
        if self.reason.is_none() {
            self.reason = lock.reason;
        }
    }
}

/// The closure or function that an operand is, by the path of its body.
fn callee_body_path(o: &Operand) -> (r: Option<&String>)
    ensures
        match r {
            Some(p) => callable_body(*o) == Some(p@),
            None => callable_body(*o) is None,
        },
{
    match &o.ty().kind {
        TyKind::Body(path) => Some(path),
        _ => None,
    }
}

/// Whether something of the type can be called, though it is not known what runs
/// then.
fn is_callable_shaped(ty: &Ty) -> (r: bool)
    ensures
        r == (ty.kind is Callable),
{
    match &ty.kind {
        TyKind::Callable => true,
        _ => false,
    }
}

impl Found {
    /// Records the callables among the arguments of a call.
    fn hand_on(&mut self, cr: &Known, body: &Body, c: &Callee, args: &Vec<Operand>)
        requires
            old(self).shaped(*body),
        ensures
            final(self).shaped(*body),
            final(self).value() == (FoundV {
                closure_args: old(self).value().closure_args + handed_on(
                    cr.value(),
                    *c,
                    args@,
                    args@.len() as int,
                ),
                ..old(self).value()
            }),
    {
        let ghost start = self.value();
        let mut i: usize = 0;
        assert(start.closure_args + handed_on(cr.value(), *c, args@, 0)
            =~= start.closure_args);
        while i < args.len()
            invariant
                self.shaped(*body),
                i <= args@.len(),
                self.value() == (FoundV {
                    closure_args: start.closure_args + handed_on(
                        cr.value(),
                        *c,
                        args@,
                        i as int,
                    ),
                    ..start
                }),
            decreases args@.len() - i,
        {
            let ghost before = handed_values(self.closure_args@);
            let a = &args[i];
            match callee_body_path(a) {
                Some(path) => {
                    let h = Handed {
                        callee: callee_name_of(cr, c),
                        param: i + 1,
                        closure: path.clone(),
                    };
                    self.closure_args.push(h);
                    assert(handed_values(self.closure_args@) =~= before.push(h.value()));
                },
                None => {
                    if is_callable_shaped(a.ty()) {
                        let h = Handed {
                            callee: callee_name_of(cr, c),
                            param: i + 1,
                            closure: "<unknown>".to_string(),
                        };
                        self.closure_args.push(h);
                        assert(handed_values(self.closure_args@) =~= before.push(h.value()));
                    }
                },
            }
            i = i + 1;
            assert(self.value().closure_args =~= start.closure_args + handed_on(
                cr.value(),
                *c,
                args@,
                i as int,
            ));
        }
    }

    /// Records what `mem::drop` releases.
    fn release(&mut self, body: &Body, b: usize, args: &Vec<Operand>)
        requires
            old(self).shaped(*body),
        ensures
            final(self).shaped(*body),
            final(self).value() == (FoundV {
                drops: old(self).value().drops + released(*body, b, args@, args@.len() as int),
                ..old(self).value()
            }),
    {
        let ghost start = self.value();
        let mut i: usize = 0;
        assert(start.drops + released(*body, b, args@, 0) =~= start.drops);
        while i < args.len()
            invariant
                self.shaped(*body),
                i <= args@.len(),
                self.value() == (FoundV {
                    drops: start.drops + released(*body, b, args@, i as int),
                    ..start
                }),
            decreases args@.len() - i,
        {
            let ghost before = self.value();
            match args[i].place() {
                Some(p) => {
                    let chain = move_chain(body, p.local);
                    let ghost ls = chain@.map_values(|l: usize| (b, l));
                    let mut k: usize = 0;
                    assert(before.drops + ls.take(0) =~= before.drops);
                    while k < chain.len()
                        invariant
                            self.shaped(*body),
                            ls == chain@.map_values(|l: usize| (b, l)),
                            k <= chain@.len(),
                            self.value() == (FoundV {
                                drops: before.drops + ls.take(k as int),
                                ..before
                            }),
                        decreases chain@.len() - k,
                    {
                        self.drops.push((b, chain[k]));
                        assert(ls.take(k + 1) =~= ls.take(k as int).push((b, chain@[k as int])));
                        assert(self.drops@ =~= before.drops + ls.take(k + 1));
                        k = k + 1;
                    }
                    assert(ls.take(k as int) =~= ls);
                },
                None => {},
            }
            i = i + 1;
            assert(self.drops@ =~= start.drops + released(*body, b, args@, i as int));
        }
    }

    /// A call of a callable value.
    fn value_call(&mut self, body: &Body, b: usize, args: &Vec<Operand>)
        requires
            old(self).shaped(*body),
        ensures
            final(self).shaped(*body),
            final(self).value() == scan_value_call(*body, old(self).value(), b, args@),
    {
        if args.len() > 0 {
            if let Some(path) = callee_body_path(&args[0]) {
                self.add_local_call(body, b, path.clone());
                return;
            }
            if let Some(p) = args[0].place() {
                if let Some(k) = resolve_to_param(body, p.local) {
                    self.param_calls.push((b, k));
                    return;
                }
            }
        }
        self.add_opaque(body, b);
    }

    /// A call of a named function at the end of block `b`.
    fn call(
        &mut self,
        cr: &Known,
        body: &Body,
        b: usize,
        c: &Callee,
        args: &Vec<Operand>,
        dest: &Place,
    )
        requires
            cr.wf(),
            body.wf(),
            old(self).shaped(*body),
            place_in(*dest, body.locals@.len()),
            forall|i: int|
                0 <= i < args@.len() ==> operand_in(#[trigger] args@[i], body.locals@.len()),
        ensures
            final(self).shaped(*body),
            final(self).value() == scan_call(
                cr.value(),
                *body,
                old(self).value(),
                b,
                *c,
                args@,
                *dest,
            ),
    {
        let path = c.path.as_str();
        if args.len() > 0 {
            assert(operand_in(args@[0], body.locals@.len()));
        }
        if is_result_unwrap(path) {
            if args.len() > 0 {
                if let Some(p) = args[0].place() {
                    if let Some(k) = self.result_class.get(p.local) {
                        self.guard_class.set(dest.local, k);
                    }
                }
            }
            return;
        }
        if is_mem_drop(path) {
            self.release(body, b, args);
            return;
        }
        if is_fn_call_shim(path) {
            self.value_call(body, b, args);
            return;
        }
        if is_critical_section_enter(path) {
            if args.len() > 0 {
                if let Some(closure) = callee_body_path(&args[0]) {
                    self.add_section(body, b, closure.clone());
                    return;
                }
            }
            self.add_opaque(body, b);
            return;
        }
        if is_lock_acquire(path) {
            let lock = if args.len() > 0 {
                lock_of_operand(cr, body, &args[0])
            } else {
                no_lock()
            };
            self.add_lock(body, b, lock, dest.local);
            return;
        }
        self.hand_on(cr, body, c, args);
        if cr.analyzes(c) {
            self.add_local_call(body, b, body_run(c).clone());
        } else if c.local && c.of_trait {
            self.add_opaque(body, b);
        } else if c.local {
            self.add_local_call(body, b, c.path.clone());
        }
    }
}

/// Scans the terminators of a body.
fn scan(cr: &Known, body: &Body) -> (r: Found)
    requires
        cr.wf(),
        body.wf(),
    ensures
        r.shaped(*body),
        r.value() == scanned(cr.value(), *body, body.blocks@.len()),
{
    let mut f = Found::new(body.locals.len());
    let mut b: usize = 0;
    while b < body.blocks.len()
        invariant
            cr.wf(),
            body.wf(),
            f.shaped(*body),
            b <= body.blocks@.len(),
            f.value() == scanned(cr.value(), *body, b as nat),
        decreases body.blocks@.len() - b,
    {
        assert(block_in(body.blocks@[b as int], body.locals@.len(), body.blocks@.len()));
        match &body.blocks[b].terminator.kind {
            TermKind::Call { callee, args, dest } => match callee {
                Some(c) => f.call(cr, body, b, c, args, dest),
                None => f.add_opaque(body, b),
            },
            _ => {},
        }
        b = b + 1;
    }
    f
}

/// The first of the locals that has a lock, and its lock.
fn known_lock(m: &Slots, chain: &Vec<usize>) -> (r: Option<ClassId>)
    ensures
        match r {
            Some(k) => first_known(m.value(), chain@) == Some(k.value()),
            None => first_known(m.value(), chain@) is None,
        },
{
    let mut i: usize = 0;
    assert(chain@.skip(0) =~= chain@);
    while i < chain.len()
        invariant
            i <= chain@.len(),
            first_known(m.value(), chain@) == first_known(m.value(), chain@.skip(i as int)),
        decreases chain@.len() - i,
    {
        if let Some(k) = m.get(chain[i]) {
            return Some(k);
        }
        assert(chain@.skip(i as int).drop_first() =~= chain@.skip(i + 1));
        i = i + 1;
    }
    None
}

impl Found {
    /// Gives every guard the lock that it holds, as far as it is known.
    fn link_guards(&mut self, body: &Body)
        requires
            body.wf(),
            old(self).shaped(*body),
            forall|i: int|
                0 <= i < old(self).acquires@.len() ==> match (
                #[trigger] old(self).acquires@[i]).guard {
                    Some(l) => l < body.locals@.len(),
                    None => true,
                },
        ensures
            final(self).shaped(*body),
            final(self).guard_class.value() == guard_locks(*body, old(self).value()),
            final(self).value() == (FoundV {
                guard_class: final(self).guard_class.value(),
                ..old(self).value()
            }),
    {
        let ghost f = self.value();
        let ghost acq = f.acquires;
        let mut i: usize = 0;
        assert(acq.take(0) =~= Seq::empty());
        while i < self.acquires.len()
            invariant
                self.shaped(*body),
                f == old(self).value(),
                acq == f.acquires,
                self.acquires == old(self).acquires,
                forall|k: int|
                    0 <= k < old(self).acquires@.len() ==> match (
                    #[trigger] old(self).acquires@[k]).guard {
                        Some(l) => l < body.locals@.len(),
                        None => true,
                    },
                i <= acq.len(),
                acq.len() == self.acquires@.len(),
                self.value() == (FoundV {
                    guard_class: with_returned(f.guard_class, acq.take(i as int)),
                    ..f
                }),
            decreases acq.len() - i,
        {
            assert(acq.take(i + 1).drop_last() =~= acq.take(i as int));
            assert(acq.take(i + 1).last() == self.acquires@[i as int].value());
            assert(old(self).acquires@[i as int] == self.acquires@[i as int]);
            if let Some(l) = self.acquires[i].guard {
                let k = self.acquires[i].lock.copy();
                self.guard_class.set(l, k);
            }
            i = i + 1;
        }
        assert(acq.take(i as int) =~= acq);
        let ghost m = with_returned(f.guard_class, acq);
        let mut l: usize = 0;
        while l < body.locals.len()
            invariant
                self.shaped(*body),
                l <= body.locals@.len(),
                self.value() == (FoundV { guard_class: with_moved(*body, m, l as nat), ..f }),
            decreases body.locals@.len() - l,
        {
            if guard_class_of_ty(&body.locals[l]).is_some() && self.guard_class.get(l).is_none() {
                let chain = move_chain(body, l);
                if let Some(k) = known_lock(&self.guard_class, &chain) {
                    self.guard_class.set(l, k);
                }
            }
            l = l + 1;
        }
    }
}

/// What a body does with locks.
struct Facts<'a> {
    body: &'a Body,
    found: Found,
    live: Live,
    is_guard_local: Vec<bool>,
}

impl<'a> Facts<'a> {
    spec fn wf(&self) -> bool {
        &&& self.body.wf()
        &&& self.found.shaped(*self.body)
        &&& self.live.solves(*self.body, self.found.drops@)
        &&& self.is_guard_local@.len() == self.body.locals@.len()
        &&& forall|l: usize|
            l < self.body.locals@.len() ==> #[trigger] self.is_guard_local@[l as int] == is_guard(
                *self.body,
                l,
            )
    }

    spec fn locks(&self) -> Map<usize, ClassIdV> {
        self.found.guard_class.value()
    }

    spec fn acquired(&self) -> Seq<AcquireV> {
        acquire_values(self.found.acquires@)
    }

    /// The classes held at the end of block `b`.
    fn held(&self, b: usize, except: Option<usize>) -> (r: NameSet)
        requires
            self.wf(),
            b < self.body.blocks@.len(),
        ensures
            r.wf(),
            r@ == held_at(*self.body, self.found.drops@, self.locks(), b, except),
    {
        let ghost d = self.found.drops@;
        let mut out = NameSet::new();
        let mut l: usize = 0;
        while l < self.body.locals.len()
            invariant
                self.wf(),
                d == self.found.drops@,
                b < self.body.blocks@.len(),
                l <= self.body.locals@.len(),
                out.wf(),
                forall|c: Name| #[trigger]
                    out@.contains(c) <==> exists|k: usize|
                        k < l && #[trigger] guard_live(*self.body, d, b, k) && Some(k) != except
                            && self.locks().contains_key(k) && self.locks()[k].class == c,
            decreases self.body.locals@.len() - l,
        {
            let ghost before = out@;
            let skip = match except {
                Some(e) => e == l,
                None => false,
            };
            if !skip && self.is_guard_local[l] && self.live.live_at(self.body, Ghost(d), b, l) {
                if let Some(k) = self.found.guard_class.get(l) {
                    let _ = out.insert(k.class.as_str());
                }
            }
            proof {
                assert forall|c: Name| #[trigger] out@.contains(c) <==> exists|k: usize|
                    k < l + 1 && #[trigger] guard_live(*self.body, d, b, k) && Some(k) != except
                        && self.locks().contains_key(k) && self.locks()[k].class == c by {
                    if out@.contains(c) {
                        if before.contains(c) {
                            let k = choose|k: usize|
                                k < l && #[trigger] guard_live(*self.body, d, b, k) && Some(k)
                                    != except && self.locks().contains_key(k)
                                    && self.locks()[k].class == c;
                            assert(k < l + 1);
                        } else {
                            assert(guard_live(*self.body, d, b, l));
                        }
                    }
                    if exists|k: usize|
                        k < l + 1 && #[trigger] guard_live(*self.body, d, b, k) && Some(k)
                            != except && self.locks().contains_key(k) && self.locks()[k].class
                            == c {
                        let k = choose|k: usize|
                            k < l + 1 && #[trigger] guard_live(*self.body, d, b, k) && Some(k)
                                != except && self.locks().contains_key(k)
                                && self.locks()[k].class == c;
                        if k < l {
                            assert(before.contains(c));
                        }
                    }
                }
            }
            l = l + 1;
        }
        proof {
            let want = held_at(*self.body, d, self.locks(), b, except);
            assert forall|c: Name| out@.contains(c) <==> want.contains(c) by {
                if want.contains(c) {
                    let k = choose|k: usize|
                        #[trigger] guard_live(*self.body, d, b, k) && Some(k) != except
                            && self.locks().contains_key(k) && self.locks()[k].class == c;
                    assert(k < l);
                }
            }
            assert(out@ =~= want);
        }
        out
    }

    /// The least guard that is live at the end of block `b` and whose lock is not
    /// known.
    fn unknown_at(&self, b: usize) -> (r: Option<usize>)
        requires
            self.wf(),
            b < self.body.blocks@.len(),
        ensures
            r == first_unknown(
                *self.body,
                self.found.drops@,
                self.acquired(),
                self.locks(),
                b,
                self.body.locals@.len(),
            ),
            match r {
                Some(l) => l < self.body.locals@.len() && is_guard(*self.body, l),
                None => true,
            },
    {
        let ghost d = self.found.drops@;
        let mut found: Option<usize> = None;
        let mut l: usize = 0;
        while l < self.body.locals.len()
            invariant
                self.wf(),
                d == self.found.drops@,
                b < self.body.blocks@.len(),
                l <= self.body.locals@.len(),
                found == first_unknown(*self.body, d, self.acquired(), self.locks(), b, l as nat),
                match found {
                    Some(k) => k < self.body.locals@.len() && is_guard(*self.body, k),
                    None => true,
                },
            decreases self.body.locals@.len() - l,
        {
            if found.is_none() && self.is_guard_local[l] && self.live.live_at(
                self.body,
                Ghost(d),
                b,
                l,
            ) && (self.found.guard_class.get(l).is_none() || doubtful(self.body, &self.found.acquires, l)) {
                found = Some(l);
            }
            l = l + 1;
        }
        found
    }

    /// The first of the sites at which a guard is held whose lock is not known.
    fn unknown_guard(&self, sites: &Vec<usize>) -> (r: Option<String>)
        requires
            self.wf(),
            forall|i: int|
                0 <= i < sites@.len() ==> (#[trigger] sites@[i]) < self.body.blocks@.len(),
        ensures
            opt_name(r) == unknown_held(
                *self.body,
                self.found.drops@,
                self.acquired(),
                self.locks(),
                sites@,
            ),
    {
        let ghost d = self.found.drops@;
        let mut i: usize = 0;
        assert(sites@.take(0) =~= Seq::empty());
        while i < sites.len()
            invariant
                self.wf(),
                d == self.found.drops@,
                forall|k: int|
                    0 <= k < sites@.len() ==> (#[trigger] sites@[k]) < self.body.blocks@.len(),
                i <= sites@.len(),
                unknown_held(
                    *self.body,
                    d,
                    self.acquired(),
                    self.locks(),
                    sites@.take(i as int),
                ) is None,
            decreases sites@.len() - i,
        {
            let b: usize = sites[i];
            assert(sites@.take(i + 1).drop_last() =~= sites@.take(i as int));
            assert(sites@.take(i + 1).last() == b);
            if let Some(l) = self.unknown_at(b) {
                match guard_class_of_ty(&self.body.locals[l]) {
                    Some(g) => {
                        let mut r = "in ".to_string();
                        r.append(self.body.path.as_str());
                        r.append(": a ");
                        r.append(g.kind.as_str());
                        r.append("<");
                        r.append(g.data.as_str());
                        r.append(
                            "> guard whose lock class could not                      be determined is held at ",
                        );
                        r.append(self.body.blocks[b].terminator.site.as_str());
                        r.append(", so that held-set is missing an entry");
                        proof {
                            lemma_unknown_stays(
                                *self.body,
                                d,
                                self.acquired(),
                                self.locks(),
                                sites@,
                                i + 1,
                            );
                        }
                        return Some(r);
                    },
                    None => {},
                }
            }
            i = i + 1;
        }
        assert(sites@.take(i as int) =~= sites@);
        None
    }
}

proof fn lemma_unknown_stays(
    body: Body,
    drops: Drops,
    acquires: Seq<AcquireV>,
    locks: Map<usize, ClassIdV>,
    sites: Seq<usize>,
    n: int,
)
    requires
        0 <= n <= sites.len(),
        unknown_held(body, drops, acquires, locks, sites.take(n)) is Some,
    ensures
        unknown_held(body, drops, acquires, locks, sites) == unknown_held(body, drops, acquires, locks, sites.take(n)),
    decreases sites.len() - n,
{
    if n < sites.len() {
        assert(sites.take(n + 1).drop_last() =~= sites.take(n));
        lemma_unknown_stays(body, drops, acquires, locks, sites, n + 1);
    } else {
        assert(sites.take(n) =~= sites);
    }
}

/// Every site is one of the first `n` blocks, and every returned guard is one.
spec fn sites_below(body: Body, f: FoundV, n: int) -> bool {
    &&& forall|i: int|
        0 <= i < f.acquires.len() ==> (#[trigger] f.acquires[i]).block < n && match f.acquires[i].guard {
            Some(l) => is_guard(body, l),
            None => true,
        }
    &&& forall|i: int| 0 <= i < f.local_calls.len() ==> (#[trigger] f.local_calls[i]).0 < n
    &&& forall|i: int| 0 <= i < f.param_calls.len() ==> (#[trigger] f.param_calls[i]).0 < n
    &&& forall|i: int| 0 <= i < f.cs_enters.len() ==> (#[trigger] f.cs_enters[i]).0 < n
    &&& forall|i: int| 0 <= i < f.opaque_calls.len() ==> (#[trigger] f.opaque_calls[i]) < n
}

proof fn lemma_sites_below(cr: CrateV, body: Body, n: nat)
    requires
        n <= body.blocks@.len() <= usize::MAX,
    ensures
        sites_below(body, scanned(cr, body, n), n as int),
    decreases n,
{
    if n > 0 {
        let m = (n - 1) as nat;
        lemma_sites_below(cr, body, m);
        let f = scanned(cr, body, m);
        let g = scanned(cr, body, n);
        let b = m as usize;
        assert(sites_below(body, f, n as int)) by {
            assert(forall|i: int|
                0 <= i < f.acquires.len() ==> (#[trigger] f.acquires[i]).block < m);
            assert(forall|i: int|
                0 <= i < f.local_calls.len() ==> (#[trigger] f.local_calls[i]).0 < m);
            assert(forall|i: int|
                0 <= i < f.param_calls.len() ==> (#[trigger] f.param_calls[i]).0 < m);
            assert(forall|i: int|
                0 <= i < f.cs_enters.len() ==> (#[trigger] f.cs_enters[i]).0 < m);
            assert(forall|i: int|
                0 <= i < f.opaque_calls.len() ==> (#[trigger] f.opaque_calls[i]) < m);
        }
    }
}

/// The sites at which an unknown lock would cost an ordering edge.
fn sites(f: &Found, Ghost(body): Ghost<Body>) -> (r: Vec<usize>)
    requires
        sites_below(body, f.value(), body.blocks@.len() as int),
    ensures
        r@ == sites_of(f.value()),
        forall|i: int| 0 <= i < r@.len() ==> (#[trigger] r@[i]) < body.blocks@.len(),
{
    let ghost v = f.value();
    let ghost n = body.blocks@.len() as int;
    let ghost q1 = v.acquires.map_values(|a: AcquireV| a.block);
    let ghost q2 = v.local_calls.map_values(|c: (usize, Name)| c.0);
    let ghost q3 = v.param_calls.map_values(|c: (usize, usize)| c.0);
    let ghost q4 = v.cs_enters.map_values(|c: (usize, Name)| c.0);
    let mut out: Vec<usize> = Vec::new();
    let mut i: usize = 0;
    while i < f.acquires.len()
        invariant
            v == f.value(),
            q1 == v.acquires.map_values(|a: AcquireV| a.block),
            i <= f.acquires@.len(),
            out@ == q1.take(i as int),
        decreases f.acquires@.len() - i,
    {
        assert(v.acquires[i as int] == f.acquires@[i as int].value());
        out.push(f.acquires[i].block);
        assert(out@ =~= q1.take(i + 1));
        i = i + 1;
    }
    assert(out@ =~= q1);
    i = 0;
    assert(q1 + q2.take(0) =~= q1);
    while i < f.local_calls.len()
        invariant
            v == f.value(),
            q2 == v.local_calls.map_values(|c: (usize, Name)| c.0),
            i <= f.local_calls@.len(),
            out@ == q1 + q2.take(i as int),
        decreases f.local_calls@.len() - i,
    {
        assert(v.local_calls[i as int].0 == f.local_calls@[i as int].0);
        out.push(f.local_calls[i].0);
        assert(out@ =~= q1 + q2.take(i + 1));
        i = i + 1;
    }
    assert(out@ =~= q1 + q2);
    i = 0;
    assert(q1 + q2 + q3.take(0) =~= q1 + q2);
    while i < f.param_calls.len()
        invariant
            v == f.value(),
            q3 == v.param_calls.map_values(|c: (usize, usize)| c.0),
            i <= f.param_calls@.len(),
            out@ == q1 + q2 + q3.take(i as int),
        decreases f.param_calls@.len() - i,
    {
        out.push(f.param_calls[i].0);
        assert(out@ =~= q1 + q2 + q3.take(i + 1));
        i = i + 1;
    }
    assert(out@ =~= q1 + q2 + q3);
    i = 0;
    assert(q1 + q2 + q3 + q4.take(0) =~= q1 + q2 + q3);
    while i < f.cs_enters.len()
        invariant
            v == f.value(),
            q4 == v.cs_enters.map_values(|c: (usize, Name)| c.0),
            i <= f.cs_enters@.len(),
            out@ == q1 + q2 + q3 + q4.take(i as int),
        decreases f.cs_enters@.len() - i,
    {
        assert(v.cs_enters[i as int].0 == f.cs_enters@[i as int].0);
        out.push(f.cs_enters[i].0);
        assert(out@ =~= q1 + q2 + q3 + q4.take(i + 1));
        i = i + 1;
    }
    assert(out@ =~= q1 + q2 + q3 + q4);
    i = 0;
    assert(q1 + q2 + q3 + q4 + v.opaque_calls.take(0) =~= q1 + q2 + q3 + q4);
    while i < f.opaque_calls.len()
        invariant
            v == f.value(),
            i <= f.opaque_calls@.len(),
            out@ == q1 + q2 + q3 + q4 + v.opaque_calls.take(i as int),
        decreases f.opaque_calls@.len() - i,
    {
        out.push(f.opaque_calls[i]);
        assert(out@ =~= q1 + q2 + q3 + q4 + v.opaque_calls.take(i + 1));
        i = i + 1;
    }
    assert(out@ =~= sites_of(v));
    proof {
        assert forall|k: int| 0 <= k < out@.len() implies (#[trigger] out@[k]) < n by {
            if k < q1.len() {
                assert(out@[k] == v.acquires[k].block);
            } else if k < q1.len() + q2.len() {
                assert(out@[k] == v.local_calls[k - q1.len()].0);
            } else if k < q1.len() + q2.len() + q3.len() {
                assert(out@[k] == v.param_calls[k - q1.len() - q2.len()].0);
            } else if k < q1.len() + q2.len() + q3.len() + q4.len() {
                assert(out@[k] == v.cs_enters[k - q1.len() - q2.len() - q3.len()].0);
            } else {
                assert(out@[k] == v.opaque_calls[k - q1.len() - q2.len() - q3.len()
                    - q4.len()]);
            }
        }
    }
    out
}

impl ProgramOut {
    fn new() -> (r: ProgramOut)
        ensures
            r.wf(),
            r@ == no_output(),
    {
        let r = ProgramOut {
            events: Vec::new(),
            calls: Vec::new(),
            param_calls: Vec::new(),
            closure_args: Vec::new(),
            opaque_calls: Vec::new(),
            class_instances: NameMap::new(),
            incomplete: None,
        };
        assert(event_views(r.events@) =~= Seq::empty());
        assert(link_views(r.calls@) =~= Seq::empty());
        assert(param_call_views(r.param_calls@) =~= Seq::empty());
        assert(closure_arg_views(r.closure_args@) =~= Seq::empty());
        assert(opaque_call_views(r.opaque_calls@) =~= Seq::empty());
        assert(identities(r.class_instances@) =~= Map::empty());
        r
    }

    /// Records why the absence of a deadlock would not be conclusive. The first
    /// reason counts.
    fn mark_incomplete(&mut self, reason: Option<String>)
        requires
            old(self).wf(),
        ensures
            final(self).wf(),
            final(self)@ == (OutV {
                incomplete: first_reason(old(self)@.incomplete, opt_name(reason)),
                ..old(self)@
            }),
    {
        if self.incomplete.is_none() {
            self.incomplete = reason;
        }
    }

    fn add_event(&mut self, e: Event)
        requires
            old(self).wf(),
        ensures
            final(self).wf(),
            final(self)@ == (OutV { events: old(self)@.events.push(e@), ..old(self)@ }),
    {
        let ghost before = event_views(self.events@);
        self.events.push(e);
        assert(event_views(self.events@) =~= before.push(e@));
    }

    fn add_call(&mut self, l: Link)
        requires
            old(self).wf(),
        ensures
            final(self).wf(),
            final(self)@ == (OutV { calls: old(self)@.calls.push(l@), ..old(self)@ }),
    {
        let ghost before = link_views(self.calls@);
        self.calls.push(l);
        assert(link_views(self.calls@) =~= before.push(l@));
    }

    fn add_instance(&mut self, class: &str, id: &str)
        requires
            old(self).wf(),
        ensures
            final(self).wf(),
            final(self)@ == (OutV {
                class_instances: with_instance(old(self)@.class_instances, class@, id@),
                ..old(self)@
            }),
    {
        let ghost before = self@;
        let mut ids = match self.class_instances.get(class) {
            Some(s) => s.copy(),
            None => NameSet::new(),
        };
        let _ = ids.insert(id);
        let _ = self.class_instances.insert(class.to_string(), ids);
        assert(identities(self.class_instances@) =~= with_instance(
            before.class_instances,
            class@,
            id@,
        ));
    }
}

impl<'a> Facts<'a> {
    spec fn value(&self) -> BodyV {
        BodyV { body: *self.body, found: self.found.value(), locks: self.locks() }
    }

    /// Records the acquisitions.
    fn emit_acquires(&self, out: &mut ProgramOut)
        requires
            self.wf(),
            sites_below(*self.body, self.found.value(), self.body.blocks@.len() as int),
            old(out).wf(),
        ensures
            final(out).wf(),
            final(out)@ == (OutV {
                events: old(out)@.events + self.value().found.acquires.map_values(
                    |a: AcquireV| acquire_event(self.value(), a),
                ),
                class_instances: with_instances(
                    old(out)@.class_instances,
                    self.value().found.acquires,
                ),
                ..old(out)@
            }),
    {
        let ghost x = self.value();
        let ghost acq = x.found.acquires;
        let ghost f = |a: AcquireV| acquire_event(x, a);
        let mut i: usize = 0;
        assert(acq.take(0) =~= Seq::empty());
        assert(out@.events + acq.map_values(f).take(0) =~= out@.events);
        while i < self.found.acquires.len()
            invariant
                self.wf(),
                sites_below(*self.body, self.found.value(), self.body.blocks@.len() as int),
                x == self.value(),
                acq == x.found.acquires,
                f == (|a: AcquireV| acquire_event(x, a)),
                i <= acq.len(),
                acq.len() == self.found.acquires@.len(),
                out.wf(),
                out@ == (OutV {
                    events: old(out)@.events + acq.map_values(f).take(i as int),
                    class_instances: with_instances(
                        old(out)@.class_instances,
                        acq.take(i as int),
                    ),
                    ..old(out)@
                }),
            decreases acq.len() - i,
        {
            let a = &self.found.acquires[i];
            assert(acq[i as int] == a.value());
            assert(acq.take(i + 1).drop_last() =~= acq.take(i as int));
            let e = Event {
                function: self.body.path.clone(),
                site: self.body.blocks[a.block].terminator.site.clone(),
                held: self.held(a.block, a.guard).to_names(),
                acquires: a.lock.class.clone(),
            };
            assert(e@ == acquire_event(x, acq[i as int]));
            out.add_event(e);
            out.add_instance(a.lock.class.as_str(), a.lock.id.as_str());
            assert(out@.events =~= old(out)@.events + acq.map_values(f).take(i + 1));
            i = i + 1;
        }
        assert(acq.take(i as int) =~= acq);
        assert(acq.map_values(f).take(i as int) =~= acq.map_values(f));
        assert(acq.map_values(f) =~= acq.map_values(
            |a: AcquireV| acquire_event(self.value(), a),
        ));
    }

    /// Records the calls of bodies of the crate.
    fn emit_calls(&self, out: &mut ProgramOut)
        requires
            self.wf(),
            sites_below(*self.body, self.found.value(), self.body.blocks@.len() as int),
            old(out).wf(),
        ensures
            final(out).wf(),
            final(out)@ == (OutV {
                calls: old(out)@.calls + self.value().found.local_calls.map_values(
                    |e: (usize, Name)| local_link(self.value(), e),
                ),
                ..old(out)@
            }),
    {
        let ghost x = self.value();
        let ghost q = x.found.local_calls;
        let ghost f = |e: (usize, Name)| local_link(x, e);
        let mut i: usize = 0;
        assert(out@.calls + q.map_values(f).take(0) =~= out@.calls);
        while i < self.found.local_calls.len()
            invariant
                self.wf(),
                sites_below(*self.body, self.found.value(), self.body.blocks@.len() as int),
                x == self.value(),
                q == x.found.local_calls,
                f == (|e: (usize, Name)| local_link(x, e)),
                i <= q.len(),
                q.len() == self.found.local_calls@.len(),
                out.wf(),
                out@ == (OutV {
                    calls: old(out)@.calls + q.map_values(f).take(i as int),
                    ..old(out)@
                }),
            decreases q.len() - i,
        {
            let c = &self.found.local_calls[i];
            assert(q[i as int] == (c.0, c.1@));
            let l = Link {
                source: self.body.path.clone(),
                target: c.1.clone(),
                held: self.held(c.0, None).to_names(),
            };
            assert(l@ == local_link(x, q[i as int]));
            out.add_call(l);
            assert(out@.calls =~= old(out)@.calls + q.map_values(f).take(i + 1));
            i = i + 1;
        }
        assert(q.map_values(f).take(i as int) =~= q.map_values(f));
        assert(q.map_values(f) =~= q.map_values(
            |e: (usize, Name)| local_link(self.value(), e),
        ));
    }

    /// Records the calls of parameters.
    fn emit_param_calls(&self, out: &mut ProgramOut)
        requires
            self.wf(),
            sites_below(*self.body, self.found.value(), self.body.blocks@.len() as int),
            old(out).wf(),
        ensures
            final(out).wf(),
            final(out)@ == (OutV {
                param_calls: old(out)@.param_calls + self.value().found.param_calls.map_values(
                    |e: (usize, usize)| param_call(self.value(), e),
                ),
                ..old(out)@
            }),
    {
        let ghost x = self.value();
        let ghost q = x.found.param_calls;
        let ghost f = |e: (usize, usize)| param_call(x, e);
        let mut i: usize = 0;
        assert(out@.param_calls + q.map_values(f).take(0) =~= out@.param_calls);
        while i < self.found.param_calls.len()
            invariant
                self.wf(),
                sites_below(*self.body, self.found.value(), self.body.blocks@.len() as int),
                x == self.value(),
                q == x.found.param_calls,
                q == self.found.param_calls@,
                f == (|e: (usize, usize)| param_call(x, e)),
                i <= q.len(),
                out.wf(),
                out@ == (OutV {
                    param_calls: old(out)@.param_calls + q.map_values(f).take(i as int),
                    ..old(out)@
                }),
            decreases q.len() - i,
        {
            let (b, k): (usize, usize) = self.found.param_calls[i];
            assert(q[i as int].0 < self.body.blocks@.len());
            let ghost before = param_call_views(out.param_calls@);
            let c = ParamCall {
                function: self.body.path.clone(),
                param: k,
                held: self.held(b, None).to_names(),
            };
            assert(c@ == param_call(x, q[i as int]));
            out.param_calls.push(c);
            assert(param_call_views(out.param_calls@) =~= before.push(c@));
            assert(out@.param_calls =~= old(out)@.param_calls + q.map_values(f).take(i + 1));
            i = i + 1;
        }
        assert(q.map_values(f).take(i as int) =~= q.map_values(f));
        assert(q.map_values(f) =~= q.map_values(
            |e: (usize, usize)| param_call(self.value(), e),
        ));
    }

    /// Records the callables handed on.
    fn emit_closure_args(&self, out: &mut ProgramOut)
        requires
            old(out).wf(),
        ensures
            final(out).wf(),
            final(out)@ == (OutV {
                closure_args: old(out)@.closure_args + self.value().found.closure_args.map_values(
                    |h: HandedV| closure_arg(self.value(), h),
                ),
                ..old(out)@
            }),
    {
        let ghost x = self.value();
        let ghost q = x.found.closure_args;
        let ghost f = |h: HandedV| closure_arg(x, h);
        let mut i: usize = 0;
        assert(out@.closure_args + q.map_values(f).take(0) =~= out@.closure_args);
        while i < self.found.closure_args.len()
            invariant
                x == self.value(),
                q == x.found.closure_args,
                f == (|h: HandedV| closure_arg(x, h)),
                i <= q.len(),
                q.len() == self.found.closure_args@.len(),
                out.wf(),
                out@ == (OutV {
                    closure_args: old(out)@.closure_args + q.map_values(f).take(i as int),
                    ..old(out)@
                }),
            decreases q.len() - i,
        {
            let h = &self.found.closure_args[i];
            assert(q[i as int] == h.value());
            let ghost before = closure_arg_views(out.closure_args@);
            let a = ClosureArg {
                function: self.body.path.clone(),
                callee: h.callee.clone(),
                param: h.param,
                closure: h.closure.clone(),
            };
            assert(a@ == closure_arg(x, q[i as int]));
            out.closure_args.push(a);
            assert(closure_arg_views(out.closure_args@) =~= before.push(a@));
            assert(out@.closure_args =~= old(out)@.closure_args + q.map_values(f).take(i + 1));
            i = i + 1;
        }
        assert(q.map_values(f).take(i as int) =~= q.map_values(f));
        assert(q.map_values(f) =~= q.map_values(|h: HandedV| closure_arg(self.value(), h)));
    }

    /// Records the calls of which it is not known what they run. One with nothing
    /// held in the body is recorded too: what callers hold is known only later.
    fn emit_opaque_calls(&self, out: &mut ProgramOut)
        requires
            self.wf(),
            sites_below(*self.body, self.found.value(), self.body.blocks@.len() as int),
            old(out).wf(),
        ensures
            final(out).wf(),
            final(out)@ == (OutV {
                opaque_calls: old(out)@.opaque_calls + self.value().found.opaque_calls.map_values(
                    |b: usize| opaque_call(self.value(), b),
                ),
                ..old(out)@
            }),
    {
        let ghost x = self.value();
        let ghost q = x.found.opaque_calls;
        let ghost f = |b: usize| opaque_call(x, b);
        let mut i: usize = 0;
        assert(out@.opaque_calls + q.map_values(f).take(0) =~= out@.opaque_calls);
        while i < self.found.opaque_calls.len()
            invariant
                self.wf(),
                sites_below(*self.body, self.found.value(), self.body.blocks@.len() as int),
                x == self.value(),
                q == x.found.opaque_calls,
                q == self.found.opaque_calls@,
                f == (|b: usize| opaque_call(x, b)),
                i <= q.len(),
                out.wf(),
                out@ == (OutV {
                    opaque_calls: old(out)@.opaque_calls + q.map_values(f).take(i as int),
                    ..old(out)@
                }),
            decreases q.len() - i,
        {
            let b: usize = self.found.opaque_calls[i];
            assert(q[i as int] < self.body.blocks@.len());
            let ghost before = opaque_call_views(out.opaque_calls@);
            let c = OpaqueCall {
                function: self.body.path.clone(),
                site: self.body.blocks[b].terminator.site.clone(),
                held: self.held(b, None).to_names(),
            };
            assert(c@ == opaque_call(x, q[i as int]));
            out.opaque_calls.push(c);
            assert(opaque_call_views(out.opaque_calls@) =~= before.push(c@));
            assert(out@.opaque_calls =~= old(out)@.opaque_calls + q.map_values(f).take(i + 1));
            i = i + 1;
        }
        assert(q.map_values(f).take(i as int) =~= q.map_values(f));
        assert(q.map_values(f) =~= q.map_values(|b: usize| opaque_call(self.value(), b)));
    }

    /// Records the critical sections: each is an acquisition, and the body inside
    /// runs with the section held.
    fn emit_sections(&self, out: &mut ProgramOut)
        requires
            self.wf(),
            sites_below(*self.body, self.found.value(), self.body.blocks@.len() as int),
            old(out).wf(),
        ensures
            final(out).wf(),
            final(out)@ == (OutV {
                events: old(out)@.events + self.value().found.cs_enters.map_values(
                    |e: (usize, Name)| section_event(self.value(), e),
                ),
                calls: old(out)@.calls + self.value().found.cs_enters.map_values(
                    |e: (usize, Name)| section_link(self.value(), e),
                ),
                class_instances: with_section(
                    old(out)@.class_instances,
                    self.value().found.cs_enters.len(),
                ),
                ..old(out)@
            }),
    {
        let ghost x = self.value();
        let ghost q = x.found.cs_enters;
        let ghost f = |e: (usize, Name)| section_event(x, e);
        let ghost g = |e: (usize, Name)| section_link(x, e);
        let mut i: usize = 0;
        assert(out@.events + q.map_values(f).take(0) =~= out@.events);
        assert(out@.calls + q.map_values(g).take(0) =~= out@.calls);
        while i < self.found.cs_enters.len()
            invariant
                self.wf(),
                sites_below(*self.body, self.found.value(), self.body.blocks@.len() as int),
                x == self.value(),
                q == x.found.cs_enters,
                f == (|e: (usize, Name)| section_event(x, e)),
                g == (|e: (usize, Name)| section_link(x, e)),
                i <= q.len(),
                q.len() == self.found.cs_enters@.len(),
                out.wf(),
                out@ == (OutV {
                    events: old(out)@.events + q.map_values(f).take(i as int),
                    calls: old(out)@.calls + q.map_values(g).take(i as int),
                    class_instances: with_section(old(out)@.class_instances, i as nat),
                    ..old(out)@
                }),
            decreases q.len() - i,
        {
            let c = &self.found.cs_enters[i];
            assert(q[i as int] == (c.0, c.1@));
            let mut held = self.held(c.0, None);
            let e = Event {
                function: self.body.path.clone(),
                site: self.body.blocks[c.0].terminator.site.clone(),
                held: held.to_names(),
                acquires: "<critical-section>".to_string(),
            };
            assert(e@ == section_event(x, q[i as int]));
            out.add_event(e);
            out.add_instance("<critical-section>", "<global>");
            let _ = held.insert("<critical-section>");
            let l = Link {
                source: self.body.path.clone(),
                target: c.1.clone(),
                held: held.to_names(),
            };
            assert(l@ == section_link(x, q[i as int]));
            out.add_call(l);
            assert(out@.events =~= old(out)@.events + q.map_values(f).take(i + 1));
            assert(out@.calls =~= old(out)@.calls + q.map_values(g).take(i + 1));
            i = i + 1;
        }
        assert(q.map_values(f).take(i as int) =~= q.map_values(f));
        assert(q.map_values(f) =~= q.map_values(
            |e: (usize, Name)| section_event(self.value(), e),
        ));
        assert(q.map_values(g).take(i as int) =~= q.map_values(g));
        assert(q.map_values(g) =~= q.map_values(
            |e: (usize, Name)| section_link(self.value(), e),
        ));
    }
}

/// Records what a body does with locks.
fn analyze_body(cr: &Known, body: &Body, out: &mut ProgramOut)
    requires
        cr.wf(),
        body.wf(),
        old(out).wf(),
    ensures
        final(out).wf(),
        final(out)@ == with_body(old(out)@, body_facts(cr.value(), *body)),
{
    let ghost n = body.blocks@.len() as int;
    let mut found = scan(cr, body);
    assert(body.blocks.len() <= usize::MAX);
    proof {
        lemma_sites_below(cr.value(), *body, body.blocks@.len());
        assert forall|i: int| 0 <= i < found.acquires@.len() implies match (
        #[trigger] found.acquires@[i]).guard {
            Some(l) => l < body.locals@.len(),
            None => true,
        } by {
            assert(found.value().acquires[i] == found.acquires@[i].value());
        }
    }
    found.link_guards(body);
    assert(sites_below(*body, found.value(), n));
    let places = sites(&found, Ghost(*body));
    let live = solve_live(body, &found.drops);
    let x = Facts { body, found, live, is_guard_local: guards(body) };
    assert(x.value() == body_facts(cr.value(), *body));
    let ghost v = x.value();
    let ghost out0 = out@;
    let reason = match &x.found.reason {
        Some(r) => Some(r.clone()),
        None => None,
    };
    assert(opt_name(reason) == v.found.reason);
    out.mark_incomplete(reason);
    let unknown = x.unknown_guard(&places);
    out.mark_incomplete(unknown);
    x.emit_acquires(out);
    x.emit_calls(out);
    x.emit_param_calls(out);
    x.emit_closure_args(out);
    x.emit_opaque_calls(out);
    x.emit_sections(out);
    assert(out@ == with_body(out0, v));
}

/// The body as an accessor.
fn summary(body: &Body) -> (r: Option<Accessor>)
    requires
        body.wf(),
    ensures
        match r {
            Some(a) => summary_of(*body) == Some(a@),
            None => summary_of(*body) is None,
        },
{
    if body.is_closure {
        None
    } else {
        accessor_summary(body)
    }
}

/// Whether two bodies are the same accessor, or none.
fn same_summary(a: &Option<Accessor>, b: &Option<Accessor>) -> (r: bool)
    ensures
        r == match (a, b) {
            (Some(x), Some(y)) => x@ == y@,
            (None, None) => true,
            _ => false,
        },
{
    match (a, b) {
        (Some(x), Some(y)) => x.param == y.param && str_eq(x.part.as_str(), y.part.as_str())
            && str_eq(x.id.as_str(), y.id.as_str()),
        (None, None) => true,
        _ => false,
    }
}

/// Whether the bodies that bear the path of body `i` do what that does.
fn unambiguous(bodies: &Vec<Body>, i: usize) -> (r: bool)
    requires
        forall|k: int| 0 <= k < bodies@.len() ==> (#[trigger] bodies@[k]).wf(),
        i < bodies@.len(),
    ensures
        r == is_unambiguous(bodies@, i as int),
{
    assert(bodies@[i as int].wf());
    let mine = summary(&bodies[i]);
    let mut j: usize = 0;
    while j < bodies.len()
        invariant
            forall|k: int| 0 <= k < bodies@.len() ==> (#[trigger] bodies@[k]).wf(),
            i < bodies@.len(),
            j <= bodies@.len(),
            match mine {
                Some(a) => summary_of(bodies@[i as int]) == Some(a@),
                None => summary_of(bodies@[i as int]) is None,
            },
            forall|k: int|
                0 <= k < j && (#[trigger] bodies@[k]).path@ == bodies@[i as int].path@
                    ==> summary_of(bodies@[k]) == summary_of(bodies@[i as int]),
        decreases bodies@.len() - j,
    {
        assert(bodies@[j as int].wf());
        if str_eq(bodies[j].path.as_str(), bodies[i].path.as_str()) {
            let other = summary(&bodies[j]);
            if !same_summary(&mine, &other) {
                return false;
            }
        }
        j = j + 1;
    }
    true
}

/// Finds the field accessors, so that a lock reached through one has the same
/// class as the same lock reached by its field path.
fn survey(bodies: &Vec<Body>) -> (r: Known)
    requires
        forall|i: int| 0 <= i < bodies@.len() ==> (#[trigger] bodies@[i]).wf(),
    ensures
        r.wf(),
        r.value() == crate_of(bodies@),
{
    let mut accessors: NameMap<Accessor> = NameMap::new();
    let mut paths = NameSet::new();
    let mut i: usize = 0;
    assert(bodies@.take(0) =~= Seq::empty());
    assert(accessor_views(accessors@) =~= Map::empty());
    while i < bodies.len()
        invariant
            forall|k: int| 0 <= k < bodies@.len() ==> (#[trigger] bodies@[k]).wf(),
            i <= bodies@.len(),
            accessors.wf(),
            paths.wf(),
            accessor_views(accessors@) == accessors_in(bodies@, i as int),
            paths@ == paths_in(bodies@.take(i as int)),
        decreases bodies@.len() - i,
    {
        let body = &bodies[i];
        assert(bodies@[i as int].wf());
        assert(bodies@.take(i + 1).drop_last() =~= bodies@.take(i as int));
        assert(bodies@.take(i + 1).last() == *body);
        let _ = paths.insert(body.path.as_str());
        if let Some(a) = summary(body) {
            if unambiguous(bodies, i) {
                let ghost before = accessor_views(accessors@);
                let _ = accessors.insert(body.path.clone(), a);
                assert(accessor_views(accessors@) =~= before.insert(body.path@, a@));
            }
        }
        i = i + 1;
    }
    assert(bodies@.take(i as int) =~= bodies@);
    Known { accessors, bodies: paths }
}

/// Records what the bodies of a crate do with locks.
pub fn analyze_crate(bodies: &Vec<Body>) -> (r: ProgramOut)
    requires
        forall|i: int| 0 <= i < bodies@.len() ==> (#[trigger] bodies@[i]).wf(),
    ensures
        r.wf(),
        r@ == output_of(crate_of(bodies@), bodies@),
{
    let cr = survey(bodies);
    let ghost c = crate_of(bodies@);
    let mut out = ProgramOut::new();
    let mut i: usize = 0;
    assert(bodies@.take(0) =~= Seq::empty());
    while i < bodies.len()
        invariant
            forall|k: int| 0 <= k < bodies@.len() ==> (#[trigger] bodies@[k]).wf(),
            cr.wf(),
            cr.value() == c,
            i <= bodies@.len(),
            out.wf(),
            out@ == output_of(c, bodies@.take(i as int)),
        decreases bodies@.len() - i,
    {
        assert(bodies@[i as int].wf());
        assert(bodies@.take(i + 1).drop_last() =~= bodies@.take(i as int));
        analyze_body(&cr, &bodies[i], &mut out);
        i = i + 1;
    }
    assert(bodies@.take(i as int) =~= bodies@);
    out
}

}
