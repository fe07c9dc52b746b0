//! The analysis reports: deadlock.
//!
//! The critical section and a spinlock are taken in opposite orders. An interrupt
//! can fire while the spinlock is held, and its handler needs the spinlock while
//! interrupts are masked.

use vstd::prelude::*;

use crate::corpus::trace::{acquired, entered, extended, is_free, Mutex, Trace};
use crate::events::critical_section;

verus! {

/// Data that the section protects, and a spinlock.
pub struct Shared {
    pub d: u32,
    pub spin: Mutex<u32>,
}

/// Enters the section and takes the spinlock inside it.
pub fn cs_then_spin(s: &mut Shared, t: &mut Trace)
    requires
        is_free(old(t)@, old(s).spin.id),
    ensures
        *final(s) == (Shared { d: old(s).spin.value, ..*old(s) }),
        final(t)@ == extended(
            old(t)@,
            seq![
                entered("cs_then_spin"@, "with"@, old(t)@.held),
                acquired(
                    "cs_then_spin::{closure#0}"@,
                    "SPIN.lock()"@,
                    old(t)@.held.push(critical_section()),
                    "SPIN"@,
                ),
            ],
        ),
{
    let ghost start = t@;
    t.enter("cs_then_spin", "with");
    let v: u32 = *s.spin.lock(t, "cs_then_spin::{closure#0}", "SPIN.lock()", "SPIN");
    s.d = v;
    t.release();
    t.release();
    assert(t@.held =~= start.held);
    assert(t@.taken =~= start.taken);
    assert(t@.events =~= start.events + seq![
        entered("cs_then_spin"@, "with"@, start.held),
        acquired(
            "cs_then_spin::{closure#0}"@,
            "SPIN.lock()"@,
            start.held.push(critical_section()),
            "SPIN"@,
        ),
    ]);
}

/// Takes the spinlock and enters the section.
pub fn spin_then_cs(s: &mut Shared, t: &mut Trace)
    requires
        is_free(old(t)@, old(s).spin.id),
    ensures
        *final(s) == (Shared { d: old(s).spin.value, ..*old(s) }),
        final(t)@ == extended(
            old(t)@,
            seq![
                acquired("spin_then_cs"@, "SPIN.lock()"@, old(t)@.held, "SPIN"@),
                entered("spin_then_cs"@, "with"@, old(t)@.held.push("SPIN"@)),
            ],
        ),
{
    let ghost start = t@;
    let v: u32 = *s.spin.lock(t, "spin_then_cs", "SPIN.lock()", "SPIN");
    t.enter("spin_then_cs", "with");
    s.d = v;
    t.release();
    t.release();
    assert(t@.held =~= start.held);
    assert(t@.taken =~= start.taken);
    assert(t@.events =~= start.events + seq![
        acquired("spin_then_cs"@, "SPIN.lock()"@, start.held, "SPIN"@),
        entered("spin_then_cs"@, "with"@, start.held.push("SPIN"@)),
    ]);
}

}
