//! The analysis reports: deadlock.
//!
//! The two-account transfer: both locks are of one class, and the first is still
//! held at the second acquisition.

use vstd::prelude::*;

use crate::corpus::trace::{acquired, extended, is_free, Mutex, Trace};

verus! {

pub struct Account {
    pub bal: Mutex<i64>,
}

/// Takes both accounts.
pub fn transfer(from: &Account, to: &Account, t: &mut Trace)
    requires
        is_free(old(t)@, from.bal.id),
        is_free(old(t)@, to.bal.id),
        from.bal.id != to.bal.id,
    ensures
        final(t)@ == extended(
            old(t)@,
            seq![
                acquired("transfer"@, "from.bal.lock()"@, old(t)@.held, "Account.bal"@),
                acquired("transfer"@, "to.bal.lock()"@, old(t)@.held.push("Account.bal"@), "Account.bal"@),
            ],
        ),
{
    let ghost start = t@;
    let _ = from.bal.lock(t, "transfer", "from.bal.lock()", "Account.bal");
    let _ = to.bal.lock(t, "transfer", "to.bal.lock()", "Account.bal");
    t.release();
    t.release();
    assert(t@.held =~= start.held);
    assert(t@.taken =~= start.taken);
    assert(t@.events =~= start.events + seq![
        acquired("transfer"@, "from.bal.lock()"@, start.held, "Account.bal"@),
        acquired("transfer"@, "to.bal.lock()"@, start.held.push("Account.bal"@), "Account.bal"@),
    ]);
}

}
