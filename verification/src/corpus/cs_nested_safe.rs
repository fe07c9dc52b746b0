//! The analysis reports: safe.
//!
//! A critical section entered inside a critical section. On a single core this
//! is reentrant: interrupts are simply kept masked.

use vstd::prelude::*;

use crate::corpus::trace::{entered, extended, Trace};
use crate::events::critical_section;

verus! {

/// Sets `d` inside two sections.
pub fn f(d: &mut u32, t: &mut Trace)
    ensures
        *final(d) == 1,
        final(t)@ == extended(
            old(t)@,
            seq![
                entered("f"@, "outer"@, old(t)@.held),
                entered("f::{closure#0}"@, "inner"@, old(t)@.held.push(critical_section())),
            ],
        ),
{
    let ghost start = t@;
    t.enter("f", "outer");
    t.enter("f::{closure#0}", "inner");
    *d = 1;
    t.release();
    t.release();
    assert(t@.held =~= start.held);
    assert(t@.taken =~= start.taken);
    assert(t@.events =~= start.events + seq![
        entered("f"@, "outer"@, start.held),
        entered("f::{closure#0}"@, "inner"@, start.held.push(critical_section())),
    ]);
}

}
