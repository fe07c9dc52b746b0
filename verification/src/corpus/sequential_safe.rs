//! The analysis reports: safe.
//!
//! The class of the two-account transfer, but each lock is released before the
//! next is taken: what is held is a matter of liveness.

use vstd::prelude::*;

use crate::corpus::trace::{acquired, extended, is_free, Mutex, Trace};

verus! {

pub struct Account {
    pub bal: Mutex<i64>,
}

/// Takes one account after the other.
pub fn seq(a: &Account, b: &Account, t: &mut Trace)
    requires
        is_free(old(t)@, a.bal.id),
        is_free(old(t)@, b.bal.id),
    ensures
        final(t)@ == extended(
            old(t)@,
            seq![
                acquired("seq"@, "a.bal.lock()"@, old(t)@.held, "Account.bal"@),
                acquired("seq"@, "b.bal.lock()"@, old(t)@.held, "Account.bal"@),
            ],
        ),
{
    let ghost start = t@;
    let _ = a.bal.lock(t, "seq", "a.bal.lock()", "Account.bal");
    t.release();
    assert(t@.held =~= start.held);
    assert(t@.taken =~= start.taken);
    let _ = b.bal.lock(t, "seq", "b.bal.lock()", "Account.bal");
    t.release();
    assert(t@.held =~= start.held);
    assert(t@.taken =~= start.taken);
    assert(t@.events =~= start.events + seq![
        acquired("seq"@, "a.bal.lock()"@, start.held, "Account.bal"@),
        acquired("seq"@, "b.bal.lock()"@, start.held, "Account.bal"@),
    ]);
}

}
