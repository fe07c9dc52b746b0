//! The analysis reports: deadlock.
//!
//! Two statics taken in opposite orders.

use vstd::prelude::*;

use crate::corpus::trace::{acquired, extended, is_free, Mutex, Trace};

verus! {

/// The locks that exist once.
pub struct Statics {
    pub a: Mutex<i32>,
    pub b: Mutex<i32>,
}

/// Takes `A`, then `B`.
pub fn f(s: &Statics, t: &mut Trace)
    requires
        is_free(old(t)@, s.a.id),
        is_free(old(t)@, s.b.id),
        s.a.id != s.b.id,
    ensures
        final(t)@ == extended(
            old(t)@,
            seq![
                acquired("f"@, "A.lock()"@, old(t)@.held, "A"@),
                acquired("f"@, "B.lock()"@, old(t)@.held.push("A"@), "B"@),
            ],
        ),
{
    let ghost start = t@;
    let _ = s.a.lock(t, "f", "A.lock()", "A");
    let _ = s.b.lock(t, "f", "B.lock()", "B");
    t.release();
    t.release();
    assert(t@.held =~= start.held);
    assert(t@.taken =~= start.taken);
    assert(t@.events =~= start.events + seq![
        acquired("f"@, "A.lock()"@, start.held, "A"@),
        acquired("f"@, "B.lock()"@, start.held.push("A"@), "B"@),
    ]);
}

/// Takes `B`, then `A`.
pub fn g(s: &Statics, t: &mut Trace)
    requires
        is_free(old(t)@, s.b.id),
        is_free(old(t)@, s.a.id),
        s.b.id != s.a.id,
    ensures
        final(t)@ == extended(
            old(t)@,
            seq![
                acquired("g"@, "B.lock()"@, old(t)@.held, "B"@),
                acquired("g"@, "A.lock()"@, old(t)@.held.push("B"@), "A"@),
            ],
        ),
{
    let ghost start = t@;
    let _ = s.b.lock(t, "g", "B.lock()", "B");
    let _ = s.a.lock(t, "g", "A.lock()", "A");
    t.release();
    t.release();
    assert(t@.held =~= start.held);
    assert(t@.taken =~= start.taken);
    assert(t@.events =~= start.events + seq![
        acquired("g"@, "B.lock()"@, start.held, "B"@),
        acquired("g"@, "A.lock()"@, start.held.push("B"@), "A"@),
    ]);
}

}
