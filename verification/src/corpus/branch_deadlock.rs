//! The analysis reports: deadlock.
//!
//! The inner lock is taken, while the outer is held, only on one branch; the
//! outer must count as held there all the same.

use vstd::prelude::*;

use crate::corpus::trace::{acquired, extended, is_free, Mutex, Trace};

verus! {

pub struct Account {
    pub bal: Mutex<i64>,
}

/// Takes the first account, and on one branch the second.
pub fn branchy(a: &Account, b: &Account, c: bool, t: &mut Trace)
    requires
        is_free(old(t)@, a.bal.id),
        c ==> is_free(old(t)@, b.bal.id),
        c ==> a.bal.id != b.bal.id,
    ensures
        final(t)@ == extended(
            old(t)@,
            if c {
                seq![
                    acquired("branchy"@, "a.bal.lock()"@, old(t)@.held, "Account.bal"@),
                    acquired(
                        "branchy"@,
                        "b.bal.lock()"@,
                        old(t)@.held.push("Account.bal"@),
                        "Account.bal"@,
                    ),
                ]
            } else {
                seq![acquired("branchy"@, "a.bal.lock()"@, old(t)@.held, "Account.bal"@)]
            },
        ),
{
    let ghost start = t@;
    let _ = a.bal.lock(t, "branchy", "a.bal.lock()", "Account.bal");
    if c {
        let _ = b.bal.lock(t, "branchy", "b.bal.lock()", "Account.bal");
        t.release();
    }
    t.release();
    proof {
        let first = acquired("branchy"@, "a.bal.lock()"@, start.held, "Account.bal"@);
        let second = acquired(
            "branchy"@,
            "b.bal.lock()"@,
            start.held.push("Account.bal"@),
            "Account.bal"@,
        );
        assert(t@.held =~= start.held);
        assert(t@.taken =~= start.taken);
        assert(t@.events =~= start.events + if c {
            seq![first, second]
        } else {
            seq![first]
        });
    }
}

}
