//! The analysis reports: deadlock.
//!
//! The same lock is taken twice on one path; it is not reentrant.

use vstd::prelude::*;

use crate::corpus::trace::{acquired, is_free, Mutex, Stuck, Trace, TraceV};

verus! {

pub struct S {
    pub m: Mutex<i32>,
}

/// Takes `m` twice, and comes no further.
pub fn double(s: &S, t: &mut Trace) -> (r: Stuck)
    requires
        is_free(old(t)@, s.m.id),
    ensures
        r.site@ == "s.m.lock() #2"@,
        final(t)@ == (TraceV {
            held: old(t)@.held.push("S.m"@),
            taken: old(t)@.taken.push(Some(s.m.id)),
            events: old(t)@.events + seq![
                acquired("double"@, "s.m.lock() #1"@, old(t)@.held, "S.m"@),
                acquired("double"@, "s.m.lock() #2"@, old(t)@.held.push("S.m"@), "S.m"@),
            ],
        }),
{
    let ghost start = t@;
    let _ = s.m.lock(t, "double", "s.m.lock() #1", "S.m");
    assert(t@.taken[start.taken.len() as int] == Some(s.m.id));
    let r = s.m.lock_again(t, "double", "s.m.lock() #2", "S.m");
    assert(t@.events =~= start.events + seq![
        acquired("double"@, "s.m.lock() #1"@, start.held, "S.m"@),
        acquired("double"@, "s.m.lock() #2"@, start.held.push("S.m"@), "S.m"@),
    ]);
    r
}

}
