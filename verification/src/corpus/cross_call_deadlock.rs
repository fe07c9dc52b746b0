//! The analysis reports: deadlock.
//!
//! The cycle spans a call: `locker_a` takes `a` and calls `helper`, which takes
//! `b` while `a` is still held; `locker_b` takes `b`, then `a`.

use vstd::prelude::*;

use crate::corpus::trace::{acquired, extended, is_free, Mutex, Trace};

verus! {

pub struct Sys {
    pub a: Mutex<i32>,
    pub b: Mutex<i32>,
}

fn helper(s: &Sys, t: &mut Trace)
    requires
        is_free(old(t)@, s.b.id),
    ensures
        final(t)@ == extended(
            old(t)@,
            seq![acquired("helper"@, "s.b.lock()"@, old(t)@.held, "Sys.b"@)],
        ),
{
    let ghost start = t@;
    let _ = s.b.lock(t, "helper", "s.b.lock()", "Sys.b");
    t.release();
    assert(t@.held =~= start.held);
    assert(t@.taken =~= start.taken);
    assert(t@.events =~= start.events + seq![
        acquired("helper"@, "s.b.lock()"@, start.held, "Sys.b"@),
    ]);
}

/// Takes `a`, and `b` in a call.
pub fn locker_a(s: &Sys, t: &mut Trace)
    requires
        is_free(old(t)@, s.a.id),
        is_free(old(t)@, s.b.id),
        s.a.id != s.b.id,
    ensures
        final(t)@ == extended(
            old(t)@,
            seq![
                acquired("locker_a"@, "s.a.lock()"@, old(t)@.held, "Sys.a"@),
                acquired("helper"@, "s.b.lock()"@, old(t)@.held.push("Sys.a"@), "Sys.b"@),
            ],
        ),
{
    let ghost start = t@;
    let _ = s.a.lock(t, "locker_a", "s.a.lock()", "Sys.a");
    helper(s, t);
    t.release();
    assert(t@.held =~= start.held);
    assert(t@.taken =~= start.taken);
    assert(t@.events =~= start.events + seq![
        acquired("locker_a"@, "s.a.lock()"@, start.held, "Sys.a"@),
        acquired("helper"@, "s.b.lock()"@, start.held.push("Sys.a"@), "Sys.b"@),
    ]);
}

/// Takes `b`, then `a`.
pub fn locker_b(s: &Sys, t: &mut Trace)
    requires
        is_free(old(t)@, s.b.id),
        is_free(old(t)@, s.a.id),
        s.b.id != s.a.id,
    ensures
        final(t)@ == extended(
            old(t)@,
            seq![
                acquired("locker_b"@, "s.b.lock()"@, old(t)@.held, "Sys.b"@),
                acquired("locker_b"@, "s.a.lock()"@, old(t)@.held.push("Sys.b"@), "Sys.a"@),
            ],
        ),
{
    let ghost start = t@;
    let _ = s.b.lock(t, "locker_b", "s.b.lock()", "Sys.b");
    let _ = s.a.lock(t, "locker_b", "s.a.lock()", "Sys.a");
    t.release();
    t.release();
    assert(t@.held =~= start.held);
    assert(t@.taken =~= start.taken);
    assert(t@.events =~= start.events + seq![
        acquired("locker_b"@, "s.b.lock()"@, start.held, "Sys.b"@),
        acquired("locker_b"@, "s.a.lock()"@, start.held.push("Sys.b"@), "Sys.a"@),
    ]);
}

}
