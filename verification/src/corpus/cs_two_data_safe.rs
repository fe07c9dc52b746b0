//! The analysis reports: safe.
//!
//! Two values are touched in opposite orders, but only inside one critical
//! section: that is an access under the section, not an acquisition.

use vstd::prelude::*;

use crate::corpus::trace::{entered, extended, Trace};

verus! {

/// Data that the section protects.
pub struct Shared {
    pub a: u32,
    pub b: u32,
}

/// Sets `a`, then `b`.
pub fn f(s: &mut Shared, t: &mut Trace)
    ensures
        *final(s) == (Shared { a: 1, b: 2 }),
        final(t)@ == extended(old(t)@, seq![entered("f"@, "with"@, old(t)@.held)]),
{
    let ghost start = t@;
    t.enter("f", "with");
    s.a = 1;
    s.b = 2;
    t.release();
    assert(t@.held =~= start.held);
    assert(t@.taken =~= start.taken);
    assert(t@.events =~= start.events + seq![entered("f"@, "with"@, start.held)]);
}

/// Sets `b`, then `a`.
pub fn g(s: &mut Shared, t: &mut Trace)
    ensures
        *final(s) == (Shared { a: 4, b: 3 }),
        final(t)@ == extended(old(t)@, seq![entered("g"@, "with"@, old(t)@.held)]),
{
    let ghost start = t@;
    t.enter("g", "with");
    s.b = 3;
    s.a = 4;
    t.release();
    assert(t@.held =~= start.held);
    assert(t@.taken =~= start.taken);
    assert(t@.events =~= start.events + seq![entered("g"@, "with"@, start.held)]);
}

}
