//! The analysis reports: safe.
//!
//! `a < b`, `b < c` and `a < c`: an acyclic chain.

use vstd::prelude::*;

use crate::corpus::trace::{acquired, extended, is_free, Mutex, Trace};

verus! {

pub struct Sys3 {
    pub a: Mutex<i32>,
    pub b: Mutex<i32>,
    pub c: Mutex<i32>,
}

/// Takes `a`, then `b`.
pub fn f1(s: &Sys3, t: &mut Trace)
    requires
        is_free(old(t)@, s.a.id),
        is_free(old(t)@, s.b.id),
        s.a.id != s.b.id,
    ensures
        final(t)@ == extended(
            old(t)@,
            seq![
                acquired("f1"@, "s.a.lock()"@, old(t)@.held, "Sys3.a"@),
                acquired("f1"@, "s.b.lock()"@, old(t)@.held.push("Sys3.a"@), "Sys3.b"@),
            ],
        ),
{
    let ghost start = t@;
    let _ = s.a.lock(t, "f1", "s.a.lock()", "Sys3.a");
    let _ = s.b.lock(t, "f1", "s.b.lock()", "Sys3.b");
    t.release();
    t.release();
    assert(t@.held =~= start.held);
    assert(t@.taken =~= start.taken);
    assert(t@.events =~= start.events + seq![
        acquired("f1"@, "s.a.lock()"@, start.held, "Sys3.a"@),
        acquired("f1"@, "s.b.lock()"@, start.held.push("Sys3.a"@), "Sys3.b"@),
    ]);
}

/// Takes `b`, then `c`.
pub fn f2(s: &Sys3, t: &mut Trace)
    requires
        is_free(old(t)@, s.b.id),
        is_free(old(t)@, s.c.id),
        s.b.id != s.c.id,
    ensures
        final(t)@ == extended(
            old(t)@,
            seq![
                acquired("f2"@, "s.b.lock()"@, old(t)@.held, "Sys3.b"@),
                acquired("f2"@, "s.c.lock()"@, old(t)@.held.push("Sys3.b"@), "Sys3.c"@),
            ],
        ),
{
    let ghost start = t@;
    let _ = s.b.lock(t, "f2", "s.b.lock()", "Sys3.b");
    let _ = s.c.lock(t, "f2", "s.c.lock()", "Sys3.c");
    t.release();
    t.release();
    assert(t@.held =~= start.held);
    assert(t@.taken =~= start.taken);
    assert(t@.events =~= start.events + seq![
        acquired("f2"@, "s.b.lock()"@, start.held, "Sys3.b"@),
        acquired("f2"@, "s.c.lock()"@, start.held.push("Sys3.b"@), "Sys3.c"@),
    ]);
}

/// Takes `a`, then `c`.
pub fn f3(s: &Sys3, t: &mut Trace)
    requires
        is_free(old(t)@, s.a.id),
        is_free(old(t)@, s.c.id),
        s.a.id != s.c.id,
    ensures
        final(t)@ == extended(
            old(t)@,
            seq![
                acquired("f3"@, "s.a.lock()"@, old(t)@.held, "Sys3.a"@),
                acquired("f3"@, "s.c.lock()"@, old(t)@.held.push("Sys3.a"@), "Sys3.c"@),
            ],
        ),
{
    let ghost start = t@;
    let _ = s.a.lock(t, "f3", "s.a.lock()", "Sys3.a");
    let _ = s.c.lock(t, "f3", "s.c.lock()", "Sys3.c");
    t.release();
    t.release();
    assert(t@.held =~= start.held);
    assert(t@.taken =~= start.taken);
    assert(t@.events =~= start.events + seq![
        acquired("f3"@, "s.a.lock()"@, start.held, "Sys3.a"@),
        acquired("f3"@, "s.c.lock()"@, start.held.push("Sys3.a"@), "Sys3.c"@),
    ]);
}

}
