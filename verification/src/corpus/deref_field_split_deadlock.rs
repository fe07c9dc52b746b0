//! The analysis reports: deadlock.
//!
//! `W` hands out a reference to its field, so `s.a.lock()` and
//! `s.a.inner.lock()` take the same lock.

use vstd::prelude::*;

use crate::corpus::trace::{acquired, extended, is_free, Mutex, Trace};

verus! {

pub struct W {
    pub inner: Mutex<i32>,
}

impl W {
    pub fn deref(&self) -> (r: &Mutex<i32>)
        ensures
            *r == self.inner,
    {
        &self.inner
    }
}

pub struct S {
    pub a: W,
    pub b: Mutex<i32>,
}

/// Takes `a` through the wrapper, then `b`.
pub fn t1(s: &S, t: &mut Trace)
    requires
        is_free(old(t)@, s.a.inner.id),
        is_free(old(t)@, s.b.id),
        s.a.inner.id != s.b.id,
    ensures
        final(t)@ == extended(
            old(t)@,
            seq![
                acquired("t1"@, "s.a.lock()"@, old(t)@.held, "S.a.inner"@),
                acquired("t1"@, "s.b.lock()"@, old(t)@.held.push("S.a.inner"@), "S.b"@),
            ],
        ),
{
    let ghost start = t@;
    let _ = s.a.deref().lock(t, "t1", "s.a.lock()", "S.a.inner");
    let _ = s.b.lock(t, "t1", "s.b.lock()", "S.b");
    t.release();
    t.release();
    assert(t@.held =~= start.held);
    assert(t@.taken =~= start.taken);
    assert(t@.events =~= start.events + seq![
        acquired("t1"@, "s.a.lock()"@, start.held, "S.a.inner"@),
        acquired("t1"@, "s.b.lock()"@, start.held.push("S.a.inner"@), "S.b"@),
    ]);
}

/// Takes `b`, then `a` by its field.
pub fn t2(s: &S, t: &mut Trace)
    requires
        is_free(old(t)@, s.b.id),
        is_free(old(t)@, s.a.inner.id),
        s.b.id != s.a.inner.id,
    ensures
        final(t)@ == extended(
            old(t)@,
            seq![
                acquired("t2"@, "s.b.lock()"@, old(t)@.held, "S.b"@),
                acquired("t2"@, "s.a.inner.lock()"@, old(t)@.held.push("S.b"@), "S.a.inner"@),
            ],
        ),
{
    let ghost start = t@;
    let _ = s.b.lock(t, "t2", "s.b.lock()", "S.b");
    let _ = s.a.inner.lock(t, "t2", "s.a.inner.lock()", "S.a.inner");
    t.release();
    t.release();
    assert(t@.held =~= start.held);
    assert(t@.taken =~= start.taken);
    assert(t@.events =~= start.events + seq![
        acquired("t2"@, "s.b.lock()"@, start.held, "S.b"@),
        acquired("t2"@, "s.a.inner.lock()"@, start.held.push("S.b"@), "S.a.inner"@),
    ]);
}

}
