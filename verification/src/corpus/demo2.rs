//! The analysis reports: deadlock for `branchy`, safe for `rw`.
//!
//! A branch, and a lock with readers and writers.

use vstd::prelude::*;

use crate::corpus::trace::{acquired, extended, is_free, Mutex, RwLock, Trace};

verus! {

pub struct Account {
    pub bal: Mutex<i64>,
}

pub struct Cfg {
    pub data: RwLock<i32>,
}

/// Takes the first account, and on one branch the second.
pub fn branchy(a: &Account, b: &Account, c: bool, t: &mut Trace)
    requires
        is_free(old(t)@, a.bal.id),
        c ==> is_free(old(t)@, b.bal.id),
        c ==> a.bal.id != b.bal.id,
    ensures
        final(t)@ == extended(
            old(t)@,
            if c {
                seq![
                    acquired("branchy"@, "a.bal.lock()"@, old(t)@.held, "Account.bal"@),
                    acquired(
                        "branchy"@,
                        "b.bal.lock()"@,
                        old(t)@.held.push("Account.bal"@),
                        "Account.bal"@,
                    ),
                ]
            } else {
                seq![acquired("branchy"@, "a.bal.lock()"@, old(t)@.held, "Account.bal"@)]
            },
        ),
{
    let ghost start = t@;
    let _ = a.bal.lock(t, "branchy", "a.bal.lock()", "Account.bal");
    if c {
        let _ = b.bal.lock(t, "branchy", "b.bal.lock()", "Account.bal");
        t.release();
    }
    t.release();
    proof {
        let first = acquired("branchy"@, "a.bal.lock()"@, start.held, "Account.bal"@);
        let second = acquired(
            "branchy"@,
            "b.bal.lock()"@,
            start.held.push("Account.bal"@),
            "Account.bal"@,
        );
        assert(t@.held =~= start.held);
        assert(t@.taken =~= start.taken);
        assert(t@.events =~= start.events + if c {
            seq![first, second]
        } else {
            seq![first]
        });
    }
}

/// Takes an account, then the configuration for reading.
pub fn rw(a: &Account, cfg: &Cfg, t: &mut Trace)
    requires
        is_free(old(t)@, a.bal.id),
        is_free(old(t)@, cfg.data.id),
        a.bal.id != cfg.data.id,
    ensures
        final(t)@ == extended(
            old(t)@,
            seq![
                acquired("rw"@, "a.bal.lock()"@, old(t)@.held, "Account.bal"@),
                acquired("rw"@, "cfg.data.read()"@, old(t)@.held.push("Account.bal"@), "Cfg.data"@),
            ],
        ),
{
    let ghost start = t@;
    let _ = a.bal.lock(t, "rw", "a.bal.lock()", "Account.bal");
    let _ = cfg.data.read(t, "rw", "cfg.data.read()", "Cfg.data");
    t.release();
    t.release();
    assert(t@.held =~= start.held);
    assert(t@.taken =~= start.taken);
    assert(t@.events =~= start.events + seq![
        acquired("rw"@, "a.bal.lock()"@, start.held, "Account.bal"@),
        acquired("rw"@, "cfg.data.read()"@, start.held.push("Account.bal"@), "Cfg.data"@),
    ]);
}

}
