//! The analysis reports: deadlock.
//!
//! `pick` returns one of two locks. An analysis that took it for an accessor of
//! the first would give the second lock the wrong class.

use vstd::prelude::*;

use crate::corpus::trace::{acquired, extended, is_free, Mutex, Trace};

verus! {

pub struct W {
    pub a: Mutex<i32>,
    pub b: Mutex<i32>,
    pub c: Mutex<i32>,
}

impl W {
    fn b_ref(&self) -> (r: &Mutex<i32>)
        ensures
            *r == self.b,
    {
        &self.b
    }

    fn pick(&self, which: bool) -> (r: &Mutex<i32>)
        ensures
            *r == if which {
                self.a
            } else {
                self.b
            },
    {
        if which {
            &self.a
        } else {
            self.b_ref()
        }
    }
}

/// Takes `b` through `pick`, then `c`.
pub fn t1(w: &W, t: &mut Trace)
    requires
        is_free(old(t)@, w.b.id),
        is_free(old(t)@, w.c.id),
        w.b.id != w.c.id,
    ensures
        final(t)@ == extended(
            old(t)@,
            seq![
                acquired("t1"@, "w.pick(false).lock()"@, old(t)@.held, "W.b"@),
                acquired("t1"@, "w.c.lock()"@, old(t)@.held.push("W.b"@), "W.c"@),
            ],
        ),
{
    let ghost start = t@;
    let _ = w.pick(false).lock(t, "t1", "w.pick(false).lock()", "W.b");
    let _ = w.c.lock(t, "t1", "w.c.lock()", "W.c");
    t.release();
    t.release();
    assert(t@.held =~= start.held);
    assert(t@.taken =~= start.taken);
    assert(t@.events =~= start.events + seq![
        acquired("t1"@, "w.pick(false).lock()"@, start.held, "W.b"@),
        acquired("t1"@, "w.c.lock()"@, start.held.push("W.b"@), "W.c"@),
    ]);
}

/// Takes `c`, then `b`.
pub fn t2(w: &W, t: &mut Trace)
    requires
        is_free(old(t)@, w.c.id),
        is_free(old(t)@, w.b.id),
        w.c.id != w.b.id,
    ensures
        final(t)@ == extended(
            old(t)@,
            seq![
                acquired("t2"@, "w.c.lock()"@, old(t)@.held, "W.c"@),
                acquired("t2"@, "w.b.lock()"@, old(t)@.held.push("W.c"@), "W.b"@),
            ],
        ),
{
    let ghost start = t@;
    let _ = w.c.lock(t, "t2", "w.c.lock()", "W.c");
    let _ = w.b.lock(t, "t2", "w.b.lock()", "W.b");
    t.release();
    t.release();
    assert(t@.held =~= start.held);
    assert(t@.taken =~= start.taken);
    assert(t@.events =~= start.events + seq![
        acquired("t2"@, "w.c.lock()"@, start.held, "W.c"@),
        acquired("t2"@, "w.b.lock()"@, start.held.push("W.c"@), "W.b"@),
    ]);
}

}
