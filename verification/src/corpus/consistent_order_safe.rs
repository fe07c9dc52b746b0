//! The analysis reports: safe.
//!
//! Two classes are acquired in the same order in both functions.

use vstd::prelude::*;

use crate::corpus::trace::{acquired, extended, is_free, Mutex, Trace};

verus! {

pub struct Sys {
    pub a: Mutex<i32>,
    pub b: Mutex<i32>,
}

/// Takes `a`, then `b`.
pub fn p(s: &Sys, t: &mut Trace)
    requires
        is_free(old(t)@, s.a.id),
        is_free(old(t)@, s.b.id),
        s.a.id != s.b.id,
    ensures
        final(t)@ == extended(
            old(t)@,
            seq![
                acquired("p"@, "s.a.lock()"@, old(t)@.held, "Sys.a"@),
                acquired("p"@, "s.b.lock()"@, old(t)@.held.push("Sys.a"@), "Sys.b"@),
            ],
        ),
{
    let ghost start = t@;
    let _ = s.a.lock(t, "p", "s.a.lock()", "Sys.a");
    let _ = s.b.lock(t, "p", "s.b.lock()", "Sys.b");
    t.release();
    t.release();
    assert(t@.held =~= start.held);
    assert(t@.taken =~= start.taken);
    assert(t@.events =~= start.events + seq![
        acquired("p"@, "s.a.lock()"@, start.held, "Sys.a"@),
        acquired("p"@, "s.b.lock()"@, start.held.push("Sys.a"@), "Sys.b"@),
    ]);
}

/// Takes `a`, then `b`.
pub fn q(s: &Sys, t: &mut Trace)
    requires
        is_free(old(t)@, s.a.id),
        is_free(old(t)@, s.b.id),
        s.a.id != s.b.id,
    ensures
        final(t)@ == extended(
            old(t)@,
            seq![
                acquired("q"@, "s.a.lock()"@, old(t)@.held, "Sys.a"@),
                acquired("q"@, "s.b.lock()"@, old(t)@.held.push("Sys.a"@), "Sys.b"@),
            ],
        ),
{
    let ghost start = t@;
    let _ = s.a.lock(t, "q", "s.a.lock()", "Sys.a");
    let _ = s.b.lock(t, "q", "s.b.lock()", "Sys.b");
    t.release();
    t.release();
    assert(t@.held =~= start.held);
    assert(t@.taken =~= start.taken);
    assert(t@.events =~= start.events + seq![
        acquired("q"@, "s.a.lock()"@, start.held, "Sys.a"@),
        acquired("q"@, "s.b.lock()"@, start.held.push("Sys.a"@), "Sys.b"@),
    ]);
}

}
