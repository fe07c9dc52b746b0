//! The analysis reports: safe.
//!
//! A mutex and a lock with readers and writers are acquired in one order.

use vstd::prelude::*;

use crate::corpus::trace::{acquired, extended, is_free, Mutex, RwLock, Trace};

verus! {

pub struct S {
    pub m: Mutex<i64>,
    pub r: RwLock<i32>,
}

/// Takes `m`, then `r` for reading.
pub fn a(s: &S, t: &mut Trace)
    requires
        is_free(old(t)@, s.m.id),
        is_free(old(t)@, s.r.id),
        s.m.id != s.r.id,
    ensures
        final(t)@ == extended(
            old(t)@,
            seq![
                acquired("a"@, "s.m.lock()"@, old(t)@.held, "S.m"@),
                acquired("a"@, "s.r.read()"@, old(t)@.held.push("S.m"@), "S.r"@),
            ],
        ),
{
    let ghost start = t@;
    let _ = s.m.lock(t, "a", "s.m.lock()", "S.m");
    let _ = s.r.read(t, "a", "s.r.read()", "S.r");
    t.release();
    t.release();
    assert(t@.held =~= start.held);
    assert(t@.taken =~= start.taken);
    assert(t@.events =~= start.events + seq![
        acquired("a"@, "s.m.lock()"@, start.held, "S.m"@),
        acquired("a"@, "s.r.read()"@, start.held.push("S.m"@), "S.r"@),
    ]);
}

/// Takes `m`, then `r` for writing.
pub fn b(s: &S, t: &mut Trace)
    requires
        is_free(old(t)@, s.m.id),
        is_free(old(t)@, s.r.id),
        s.m.id != s.r.id,
    ensures
        final(t)@ == extended(
            old(t)@,
            seq![
                acquired("b"@, "s.m.lock()"@, old(t)@.held, "S.m"@),
                acquired("b"@, "s.r.write()"@, old(t)@.held.push("S.m"@), "S.r"@),
            ],
        ),
{
    let ghost start = t@;
    let _ = s.m.lock(t, "b", "s.m.lock()", "S.m");
    let _ = s.r.write(t, "b", "s.r.write()", "S.r");
    t.release();
    t.release();
    assert(t@.held =~= start.held);
    assert(t@.taken =~= start.taken);
    assert(t@.events =~= start.events + seq![
        acquired("b"@, "s.m.lock()"@, start.held, "S.m"@),
        acquired("b"@, "s.r.write()"@, start.held.push("S.m"@), "S.r"@),
    ]);
}

}
