//! The analysis reports: deadlock.
//!
//! The order `a < b` arises only inside a callback that is run while `a` is held:
//! `with_a` takes `a` and runs its callback, and `path1` passes one that takes
//! `b`. `path2` takes `b`, then `a`.

use vstd::prelude::*;

use crate::corpus::trace::{acquired, extended, is_free, Mutex, Trace, TraceV};
use crate::model::EventV;

verus! {

pub struct Sys {
    pub a: Mutex<i32>,
    pub b: Mutex<i32>,
}

/// Something to run.
trait Callback {
    /// What running it adds to a trace.
    spec fn adds(&self, t: TraceV) -> Seq<EventV>;

    /// It can be run with this trace: the thread does not hold what it takes.
    spec fn can_run(&self, t: TraceV) -> bool;

    fn call(&self, t: &mut Trace)
        requires
            self.can_run(old(t)@),
        ensures
            final(t)@ == extended(old(t)@, self.adds(old(t)@)),
    ;
}

/// Takes `b`.
struct TakeB<'a> {
    s: &'a Sys,
}

impl<'a> Callback for TakeB<'a> {
    spec fn adds(&self, t: TraceV) -> Seq<EventV> {
        seq![acquired("path1::{closure#0}"@, "s.b.lock()"@, t.held, "Sys.b"@)]
    }

    spec fn can_run(&self, t: TraceV) -> bool {
        is_free(t, self.s.b.id)
    }

    fn call(&self, t: &mut Trace) {
        let ghost start = t@;
        let _ = self.s.b.lock(t, "path1::{closure#0}", "s.b.lock()", "Sys.b");
        t.release();
        assert(t@.held =~= start.held);
        assert(t@.taken =~= start.taken);
        assert(t@.events =~= start.events + self.adds(start));
    }
}

/// The trace in which the callback runs.
spec fn holding_a(s: &Sys, t: TraceV) -> TraceV {
    TraceV {
        held: t.held.push("Sys.a"@),
        taken: t.taken.push(Some(s.a.id)),
        events: t.events.push(acquired("with_a"@, "s.a.lock()"@, t.held, "Sys.a"@)),
    }
}

/// Takes `a` and runs the callback.
fn with_a<F: Callback>(s: &Sys, f: F, t: &mut Trace)
    requires
        is_free(old(t)@, s.a.id),
        f.can_run(holding_a(s, old(t)@)),
    ensures
        final(t)@ == extended(
            old(t)@,
            seq![acquired("with_a"@, "s.a.lock()"@, old(t)@.held, "Sys.a"@)] + f.adds(
                holding_a(s, old(t)@),
            ),
        ),
{
    let ghost start = t@;
    let _ = s.a.lock(t, "with_a", "s.a.lock()", "Sys.a");
    let ghost inside = t@;
    f.call(t);
    t.release();
    assert(t@.held =~= start.held);
    assert(t@.taken =~= start.taken);
    assert(t@.events =~= start.events + (seq![
        acquired("with_a"@, "s.a.lock()"@, start.held, "Sys.a"@),
    ] + f.adds(inside)));
}

/// Takes `a`, and `b` in a callback.
pub fn path1(s: &Sys, t: &mut Trace)
    requires
        is_free(old(t)@, s.a.id),
        is_free(old(t)@, s.b.id),
        s.a.id != s.b.id,
    ensures
        final(t)@ == extended(
            old(t)@,
            seq![
                acquired("with_a"@, "s.a.lock()"@, old(t)@.held, "Sys.a"@),
                acquired(
                    "path1::{closure#0}"@,
                    "s.b.lock()"@,
                    old(t)@.held.push("Sys.a"@),
                    "Sys.b"@,
                ),
            ],
        ),
{
    let ghost start = t@;
    with_a(s, TakeB { s }, t);
    assert(t@.events =~= start.events + seq![
        acquired("with_a"@, "s.a.lock()"@, start.held, "Sys.a"@),
        acquired("path1::{closure#0}"@, "s.b.lock()"@, start.held.push("Sys.a"@), "Sys.b"@),
    ]);
}

/// Takes `b`, then `a`.
pub fn path2(s: &Sys, t: &mut Trace)
    requires
        is_free(old(t)@, s.a.id),
        is_free(old(t)@, s.b.id),
        s.a.id != s.b.id,
    ensures
        final(t)@ == extended(
            old(t)@,
            seq![
                acquired("path2"@, "s.b.lock()"@, old(t)@.held, "Sys.b"@),
                acquired("path2"@, "s.a.lock()"@, old(t)@.held.push("Sys.b"@), "Sys.a"@),
            ],
        ),
{
    let ghost start = t@;
    let _ = s.b.lock(t, "path2", "s.b.lock()", "Sys.b");
    let _ = s.a.lock(t, "path2", "s.a.lock()", "Sys.a");
    t.release();
    t.release();
    assert(t@.held =~= start.held);
    assert(t@.taken =~= start.taken);
    assert(t@.events =~= start.events + seq![
        acquired("path2"@, "s.b.lock()"@, start.held, "Sys.b"@),
        acquired("path2"@, "s.a.lock()"@, start.held.push("Sys.b"@), "Sys.a"@),
    ]);
}

}
