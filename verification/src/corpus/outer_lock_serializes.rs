//! The analysis reports: safe, but found to deadlock.
//!
//! Two locks are only ever taken while an outer lock is held, so the inner
//! acquisitions are serialized. A strict order over classes rejects this correct
//! program all the same; the answer to it is an ordered acquisition.

use vstd::prelude::*;

use crate::corpus::trace::{acquired, extended, is_free, Mutex, Trace};

verus! {

pub struct Bank {
    pub guard: Mutex<()>,
    pub a: Mutex<i64>,
    pub b: Mutex<i64>,
}

/// Takes `guard`, `a` and `b`.
pub fn xfer(bank: &Bank, t: &mut Trace)
    requires
        is_free(old(t)@, bank.guard.id),
        is_free(old(t)@, bank.a.id),
        bank.guard.id != bank.a.id,
        is_free(old(t)@, bank.b.id),
        bank.guard.id != bank.b.id,
        bank.a.id != bank.b.id,
    ensures
        final(t)@ == extended(
            old(t)@,
            seq![
                acquired("xfer"@, "bank.guard.lock()"@, old(t)@.held, "Bank.guard"@),
                acquired("xfer"@, "bank.a.lock()"@, old(t)@.held.push("Bank.guard"@), "Bank.a"@),
                acquired("xfer"@, "bank.b.lock()"@, old(t)@.held.push("Bank.guard"@).push("Bank.a"@), "Bank.b"@),
            ],
        ),
{
    let ghost start = t@;
    let _ = bank.guard.lock(t, "xfer", "bank.guard.lock()", "Bank.guard");
    let _ = bank.a.lock(t, "xfer", "bank.a.lock()", "Bank.a");
    let _ = bank.b.lock(t, "xfer", "bank.b.lock()", "Bank.b");
    t.release();
    t.release();
    t.release();
    assert(t@.held =~= start.held);
    assert(t@.taken =~= start.taken);
    assert(t@.events =~= start.events + seq![
        acquired("xfer"@, "bank.guard.lock()"@, start.held, "Bank.guard"@),
        acquired("xfer"@, "bank.a.lock()"@, start.held.push("Bank.guard"@), "Bank.a"@),
        acquired("xfer"@, "bank.b.lock()"@, start.held.push("Bank.guard"@).push("Bank.a"@), "Bank.b"@),
    ]);
}

/// Takes `guard`, `b` and `a`.
pub fn refx(bank: &Bank, t: &mut Trace)
    requires
        is_free(old(t)@, bank.guard.id),
        is_free(old(t)@, bank.b.id),
        bank.guard.id != bank.b.id,
        is_free(old(t)@, bank.a.id),
        bank.guard.id != bank.a.id,
        bank.b.id != bank.a.id,
    ensures
        final(t)@ == extended(
            old(t)@,
            seq![
                acquired("refx"@, "bank.guard.lock()"@, old(t)@.held, "Bank.guard"@),
                acquired("refx"@, "bank.b.lock()"@, old(t)@.held.push("Bank.guard"@), "Bank.b"@),
                acquired("refx"@, "bank.a.lock()"@, old(t)@.held.push("Bank.guard"@).push("Bank.b"@), "Bank.a"@),
            ],
        ),
{
    let ghost start = t@;
    let _ = bank.guard.lock(t, "refx", "bank.guard.lock()", "Bank.guard");
    let _ = bank.b.lock(t, "refx", "bank.b.lock()", "Bank.b");
    let _ = bank.a.lock(t, "refx", "bank.a.lock()", "Bank.a");
    t.release();
    t.release();
    t.release();
    assert(t@.held =~= start.held);
    assert(t@.taken =~= start.taken);
    assert(t@.events =~= start.events + seq![
        acquired("refx"@, "bank.guard.lock()"@, start.held, "Bank.guard"@),
        acquired("refx"@, "bank.b.lock()"@, start.held.push("Bank.guard"@), "Bank.b"@),
        acquired("refx"@, "bank.a.lock()"@, start.held.push("Bank.guard"@).push("Bank.b"@), "Bank.a"@),
    ]);
}

}
