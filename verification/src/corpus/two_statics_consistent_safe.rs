//! The analysis reports: safe.
//!
//! Two distinct statics of one type, always taken in the same order. A static has
//! a name, so the two have two classes.

use vstd::prelude::*;

use crate::corpus::trace::{acquired, extended, is_free, Mutex, Trace};

verus! {

/// The locks that exist once.
pub struct Statics {
    pub a: Mutex<i32>,
    pub b: Mutex<i32>,
}

/// Takes `A`, then `B`.
pub fn f(s: &Statics, t: &mut Trace)
    requires
        is_free(old(t)@, s.a.id),
        is_free(old(t)@, s.b.id),
        s.a.id != s.b.id,
    ensures
        final(t)@ == extended(
            old(t)@,
            seq![
                acquired("f"@, "A.lock()"@, old(t)@.held, "A"@),
                acquired("f"@, "B.lock()"@, old(t)@.held.push("A"@), "B"@),
            ],
        ),
{
    let ghost start = t@;
    let _ = s.a.lock(t, "f", "A.lock()", "A");
    let _ = s.b.lock(t, "f", "B.lock()", "B");
    t.release();
    t.release();
    assert(t@.held =~= start.held);
    assert(t@.taken =~= start.taken);
    assert(t@.events =~= start.events + seq![
        acquired("f"@, "A.lock()"@, start.held, "A"@),
        acquired("f"@, "B.lock()"@, start.held.push("A"@), "B"@),
    ]);
}

/// Takes `A`, then `B`.
pub fn g(s: &Statics, t: &mut Trace)
    requires
        is_free(old(t)@, s.a.id),
        is_free(old(t)@, s.b.id),
        s.a.id != s.b.id,
    ensures
        final(t)@ == extended(
            old(t)@,
            seq![
                acquired("g"@, "A.lock()"@, old(t)@.held, "A"@),
                acquired("g"@, "B.lock()"@, old(t)@.held.push("A"@), "B"@),
            ],
        ),
{
    let ghost start = t@;
    let _ = s.a.lock(t, "g", "A.lock()", "A");
    let _ = s.b.lock(t, "g", "B.lock()", "B");
    t.release();
    t.release();
    assert(t@.held =~= start.held);
    assert(t@.taken =~= start.taken);
    assert(t@.events =~= start.events + seq![
        acquired("g"@, "A.lock()"@, start.held, "A"@),
        acquired("g"@, "B.lock()"@, start.held.push("A"@), "B"@),
    ]);
}

}
