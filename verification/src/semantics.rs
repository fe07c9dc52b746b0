//! What programs do when they run.
//!
//! Every function may be started as a task of its own, and an interrupt handler
//! may take the processor wherever interrupts are enabled. A thread of control
//! is followed from block to block: the statements of a block run one after the
//! other, so what is held at each of them is what was held on entering the
//! block.

use vstd::prelude::*;

use crate::ast::StmtV;
use crate::flow::TargetV;
use crate::frontend::has_isr;
use crate::tables::TablesV;
use crate::text::Name;

verus! {

/// What a thread can hold or wait for.
pub enum Res {
    Lock(Name),
    /// The processor, which an interrupt handler holds.
    Cpu,
}

/// A thread that is executing a block.
pub struct ThreadV {
    /// The function that the block belongs to.
    pub func: Name,
    /// What its parameters stand for; a parameter of a task's first function
    /// stands for nothing.
    pub env: Map<Name, TargetV>,
    pub block: Seq<StmtV>,
    pub held: Set<Res>,
    pub masked: bool,
}

/// A thread that starts with the function `f`.
pub open spec fn started(t: TablesV, f: Name) -> ThreadV {
    let isr = t.funcs[f].is_isr;
    ThreadV {
        func: f,
        env: Map::empty(),
        block: t.funcs[f].body,
        held: if isr {
            Set::<Res>::empty().insert(Res::Cpu)
        } else {
            Set::empty()
        },
        masked: isr,
    }
}

/// What `name` stands for: a parameter for what it is bound to, any other name
/// for itself.
pub open spec fn lookup(t: TablesV, x: ThreadV, name: Name) -> Option<TargetV> {
    if t.funcs[x.func].params.contains(name) {
        if x.env.contains_key(name) {
            Some(x.env[name])
        } else {
            None
        }
    } else if t.funcs.contains_key(name) {
        Some(TargetV::Func(name))
    } else if t.externs.contains_key(name) {
        Some(TargetV::Extern(name))
    } else {
        None
    }
}

/// The parameters, each bound to what its argument stands for.
pub open spec fn bound_params(
    t: TablesV,
    x: ThreadV,
    params: Seq<Name>,
    args: Seq<Name>,
) -> Map<Name, TargetV> {
    Map::new(
        |p: Name|
            params.contains(p) && lookup(t, x, args[params.index_of(p)]) is Some,
        |p: Name| lookup(t, x, args[params.index_of(p)])->0,
    )
}

/// The locks `locks`.
pub open spec fn lock_set(locks: Seq<Name>) -> Set<Res> {
    Set::new(|r: Res| r is Lock && locks.contains(r->Lock_0))
}

/// From the block of `x`, the thread enters the block of `y` by the statement
/// `s`.
pub open spec fn enters_by(t: TablesV, x: ThreadV, s: StmtV, y: ThreadV) -> bool {
    match s {
        StmtV::With { lock, line, body } => y == (ThreadV {
            block: body,
            held: x.held.insert(Res::Lock(lock)),
            ..x
        }),
        StmtV::Ordered { locks, line, body } => y == (ThreadV {
            block: body,
            held: x.held.union(lock_set(locks)),
            ..x
        }),
        StmtV::Couple { class, line, body } => y == (ThreadV { block: body, ..x }),
        StmtV::Mask { body } => y == (ThreadV { block: body, masked: true, ..x }),
        StmtV::Call { callee, args, line } => match lookup(t, x, callee) {
            Some(TargetV::Func(g)) => {
                &&& t.funcs.contains_key(g)
                &&& t.funcs[g].params.len() == args.len()
                &&& y == (ThreadV {
                    func: g,
                    env: bound_params(t, x, t.funcs[g].params, args),
                    block: t.funcs[g].body,
                    ..x
                })
            },
            _ => false,
        },
    }
}

/// From the block of `x`, the thread can enter the block of `y`.
pub open spec fn enters(t: TablesV, x: ThreadV, y: ThreadV) -> bool {
    exists|i: int| 0 <= i < x.block.len() && enters_by(t, x, #[trigger] x.block[i], y)
}

/// Within `n` steps some thread can come to be `x`.
pub open spec fn reached_in(t: TablesV, n: nat, x: ThreadV) -> bool
    decreases n,
{
    if n == 0 {
        exists|f: Name| #[trigger] t.funcs.contains_key(f) && x == started(t, f)
    } else {
        exists|y: ThreadV| reached_in(t, (n - 1) as nat, y) && #[trigger] enters(t, y, x)
    }
}

/// Some thread can come to be `x`.
pub open spec fn reachable(t: TablesV, x: ThreadV) -> bool {
    exists|n: nat| reached_in(t, n, x)
}

/// A thread that holds `held` and waits for `wants`.
pub struct WaitV {
    pub held: Set<Res>,
    pub wants: Res,
}

/// The locks `locks` have the classes `classes`, one by one.
pub open spec fn of_classes(t: TablesV, locks: Seq<Name>, classes: Seq<Name>) -> bool {
    &&& locks.len() == classes.len()
    &&& forall|i: int|
        0 <= i < locks.len() ==> t.lock_class.contains_key(#[trigger] locks[i])
            && t.lock_class[locks[i]] == classes[i]
}

/// An ordered acquisition takes the locks in the order of their declaration:
/// while it waits for `l` it has those that come before.
pub open spec fn taken_before(t: TablesV, locks: Seq<Name>, l: Name) -> Set<Res> {
    Set::new(
        |r: Res|
            r is Lock && locks.contains(r->Lock_0) && t.lock_index[r->Lock_0] < t.lock_index[l],
    )
}

/// The thread `x` runs with interrupts enabled, in a program with an interrupt
/// handler: it may have to wait for the processor.
pub open spec fn preemptible(t: TablesV, x: ThreadV) -> bool {
    has_isr(t) && !x.masked
}

/// What the thread `x` may wait for at the statement `s` of its block. An extern
/// takes, for each of its classes in turn, some lock of that class.
pub open spec fn waits_at(t: TablesV, x: ThreadV, s: StmtV, w: WaitV) -> bool {
    match s {
        StmtV::With { lock, line, body } => w == (WaitV { held: x.held, wants: Res::Lock(lock) }),
        StmtV::Ordered { locks, line, body } => exists|l: Name|
            locks.contains(l) && w.held == x.held.union(#[trigger] taken_before(t, locks, l)) && (
            w.wants == Res::Lock(l) || (preemptible(t, x) && w.wants == Res::Cpu)),
        StmtV::Call { callee, args, line } => match lookup(t, x, callee) {
            Some(TargetV::Extern(e)) => waits_in_extern(t, x, t.externs[e], w),
            _ => false,
        },
        _ => false,
    }
}

/// What a thread may wait for inside an extern that acquires `classes`.
pub open spec fn waits_in_extern(t: TablesV, x: ThreadV, classes: Seq<Name>, w: WaitV) -> bool {
    exists|locks: Seq<Name>, i: int|
        #[trigger] of_classes(t, locks, classes) && 0 <= i <= locks.len() && w.held
            == x.held.union(lock_set(#[trigger] locks.take(i))) && ((i < locks.len() && w.wants
            == Res::Lock(locks[i])) || (preemptible(t, x) && w.wants == Res::Cpu))
}

/// Some thread of the program may come to wait in this way.
pub open spec fn possible_wait(t: TablesV, w: WaitV) -> bool {
    exists|x: ThreadV| #[trigger]
        reachable(t, x) && ((preemptible(t, x) && w == (WaitV {
            held: x.held,
            wants: Res::Cpu,
        })) || exists|i: int|
            0 <= i < x.block.len() && waits_at(t, x, #[trigger] x.block[i], w))
}

/// Each thread waits for what the next one holds, and the last for what the
/// first holds.
pub open spec fn circular(ring: Seq<WaitV>) -> bool {
    &&& ring.len() > 0
    &&& forall|i: int|
        0 <= i < ring.len() - 1 ==> ring[i + 1].held.contains((#[trigger] ring[i]).wants)
    &&& ring[0].held.contains(ring.last().wants)
}

}
