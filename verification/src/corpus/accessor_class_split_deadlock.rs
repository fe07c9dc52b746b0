//! The analysis reports: deadlock.
//!
//! `field_route` reaches a lock through its field, `accessor_route` reaches the
//! same lock through a method that returns a reference to it. If the two routes
//! had different classes, the cycle would never close.

use vstd::prelude::*;

use crate::corpus::trace::{acquired, extended, is_free, Mutex, Trace};

verus! {

pub struct Sys {
    pub a: Mutex<i32>,
    pub b: Mutex<i32>,
}

impl Sys {
    fn lock_a(&self) -> (r: &Mutex<i32>)
        ensures
            *r == self.a,
    {
        &self.a
    }
}

/// Takes `a`, then `b`.
pub fn field_route(s: &Sys, t: &mut Trace)
    requires
        is_free(old(t)@, s.a.id),
        is_free(old(t)@, s.b.id),
        s.a.id != s.b.id,
    ensures
        final(t)@ == extended(
            old(t)@,
            seq![
                acquired("field_route"@, "s.a.lock()"@, old(t)@.held, "Sys.a"@),
                acquired("field_route"@, "s.b.lock()"@, old(t)@.held.push("Sys.a"@), "Sys.b"@),
            ],
        ),
{
    let ghost start = t@;
    let _ = s.a.lock(t, "field_route", "s.a.lock()", "Sys.a");
    let _ = s.b.lock(t, "field_route", "s.b.lock()", "Sys.b");
    t.release();
    t.release();
    assert(t@.held =~= start.held);
    assert(t@.taken =~= start.taken);
    assert(t@.events =~= start.events + seq![
        acquired("field_route"@, "s.a.lock()"@, start.held, "Sys.a"@),
        acquired("field_route"@, "s.b.lock()"@, start.held.push("Sys.a"@), "Sys.b"@),
    ]);
}

/// Takes `b`, then `a` through the accessor.
pub fn accessor_route(s: &Sys, t: &mut Trace)
    requires
        is_free(old(t)@, s.b.id),
        is_free(old(t)@, s.a.id),
        s.b.id != s.a.id,
    ensures
        final(t)@ == extended(
            old(t)@,
            seq![
                acquired("accessor_route"@, "s.b.lock()"@, old(t)@.held, "Sys.b"@),
                acquired("accessor_route"@, "s.lock_a().lock()"@, old(t)@.held.push("Sys.b"@), "Sys.a"@),
            ],
        ),
{
    let ghost start = t@;
    let _ = s.b.lock(t, "accessor_route", "s.b.lock()", "Sys.b");
    let _ = s.lock_a().lock(t, "accessor_route", "s.lock_a().lock()", "Sys.a");
    t.release();
    t.release();
    assert(t@.held =~= start.held);
    assert(t@.taken =~= start.taken);
    assert(t@.events =~= start.events + seq![
        acquired("accessor_route"@, "s.b.lock()"@, start.held, "Sys.b"@),
        acquired("accessor_route"@, "s.lock_a().lock()"@, start.held.push("Sys.b"@), "Sys.a"@),
    ]);
}

}
