//! The analysis reports: safe.
//!
//! Both paths enter the critical section and then take the spinlock.

use vstd::prelude::*;

use crate::corpus::trace::{acquired, entered, extended, is_free, Mutex, Trace};
use crate::events::critical_section;

verus! {

/// Data that the section protects, and a spinlock.
pub struct Shared {
    pub d: u32,
    pub spin: Mutex<u32>,
}

/// Enters the section and takes the spinlock inside it.
pub fn f(s: &mut Shared, t: &mut Trace)
    requires
        is_free(old(t)@, old(s).spin.id),
    ensures
        *final(s) == (Shared { d: old(s).spin.value, ..*old(s) }),
        final(t)@ == extended(
            old(t)@,
            seq![
                entered("f"@, "with"@, old(t)@.held),
                acquired(
                    "f::{closure#0}"@,
                    "SPIN.lock()"@,
                    old(t)@.held.push(critical_section()),
                    "SPIN"@,
                ),
            ],
        ),
{
    let ghost start = t@;
    t.enter("f", "with");
    let v: u32 = *s.spin.lock(t, "f::{closure#0}", "SPIN.lock()", "SPIN");
    s.d = v;
    t.release();
    t.release();
    assert(t@.held =~= start.held);
    assert(t@.taken =~= start.taken);
    assert(t@.events =~= start.events + seq![
        entered("f"@, "with"@, start.held),
        acquired(
            "f::{closure#0}"@,
            "SPIN.lock()"@,
            start.held.push(critical_section()),
            "SPIN"@,
        ),
    ]);
}

/// Enters the section and takes the spinlock inside it.
pub fn g(s: &mut Shared, t: &mut Trace)
    requires
        is_free(old(t)@, old(s).spin.id),
    ensures
        *final(s) == (Shared { d: old(s).spin.value, ..*old(s) }),
        final(t)@ == extended(
            old(t)@,
            seq![
                entered("g"@, "with"@, old(t)@.held),
                acquired(
                    "g::{closure#0}"@,
                    "SPIN.lock()"@,
                    old(t)@.held.push(critical_section()),
                    "SPIN"@,
                ),
            ],
        ),
{
    let ghost start = t@;
    t.enter("g", "with");
    let v: u32 = *s.spin.lock(t, "g::{closure#0}", "SPIN.lock()", "SPIN");
    s.d = v;
    t.release();
    t.release();
    assert(t@.held =~= start.held);
    assert(t@.taken =~= start.taken);
    assert(t@.events =~= start.events + seq![
        entered("g"@, "with"@, start.held),
        acquired(
            "g::{closure#0}"@,
            "SPIN.lock()"@,
            start.held.push(critical_section()),
            "SPIN"@,
        ),
    ]);
}

}
