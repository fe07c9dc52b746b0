//! The analysis reports: deadlock.
//!
//! A lock seen in a generic body and the same lock seen in a concrete one have
//! one class.

use vstd::prelude::*;

use crate::corpus::trace::{acquired, extended, is_free, Mutex, Trace};

verus! {

pub struct Pair<T> {
    pub a: Mutex<T>,
    pub b: Mutex<T>,
}

/// Takes `a`, then `b`.
pub fn lock_a_then_b<T>(p: &Pair<T>, t: &mut Trace)
    requires
        is_free(old(t)@, p.a.id),
        is_free(old(t)@, p.b.id),
        p.a.id != p.b.id,
    ensures
        final(t)@ == extended(
            old(t)@,
            seq![
                acquired("lock_a_then_b"@, "p.a.lock()"@, old(t)@.held, "Pair.a"@),
                acquired("lock_a_then_b"@, "p.b.lock()"@, old(t)@.held.push("Pair.a"@), "Pair.b"@),
            ],
        ),
{
    let ghost start = t@;
    let _ = p.a.lock(t, "lock_a_then_b", "p.a.lock()", "Pair.a");
    let _ = p.b.lock(t, "lock_a_then_b", "p.b.lock()", "Pair.b");
    t.release();
    t.release();
    assert(t@.held =~= start.held);
    assert(t@.taken =~= start.taken);
    assert(t@.events =~= start.events + seq![
        acquired("lock_a_then_b"@, "p.a.lock()"@, start.held, "Pair.a"@),
        acquired("lock_a_then_b"@, "p.b.lock()"@, start.held.push("Pair.a"@), "Pair.b"@),
    ]);
}

/// Takes `b`, then `a`.
pub fn lock_b_then_a(p: &Pair<i32>, t: &mut Trace)
    requires
        is_free(old(t)@, p.b.id),
        is_free(old(t)@, p.a.id),
        p.b.id != p.a.id,
    ensures
        final(t)@ == extended(
            old(t)@,
            seq![
                acquired("lock_b_then_a"@, "p.b.lock()"@, old(t)@.held, "Pair.b"@),
                acquired("lock_b_then_a"@, "p.a.lock()"@, old(t)@.held.push("Pair.b"@), "Pair.a"@),
            ],
        ),
{
    let ghost start = t@;
    let _ = p.b.lock(t, "lock_b_then_a", "p.b.lock()", "Pair.b");
    let _ = p.a.lock(t, "lock_b_then_a", "p.a.lock()", "Pair.a");
    t.release();
    t.release();
    assert(t@.held =~= start.held);
    assert(t@.taken =~= start.taken);
    assert(t@.events =~= start.events + seq![
        acquired("lock_b_then_a"@, "p.b.lock()"@, start.held, "Pair.b"@),
        acquired("lock_b_then_a"@, "p.a.lock()"@, start.held.push("Pair.b"@), "Pair.a"@),
    ]);
}

}
