//! The analysis reports: deadlock.
//!
//! A transfer between two accounts, with the amount: called with the accounts in
//! one order on one thread and in the other on another, each thread may hold the
//! first and wait for the second.

use vstd::prelude::*;

use crate::corpus::trace::{acquired, extended, is_free, Mutex, Trace};

verus! {

pub struct Account {
    pub balance: Mutex<i64>,
}

/// Takes both accounts, and moves `amount` from the one to the other.
pub fn transfer(from: &mut Account, to: &mut Account, amount: i64, t: &mut Trace)
    requires
        is_free(old(t)@, old(from).balance.id),
        is_free(old(t)@, old(to).balance.id),
        old(from).balance.id != old(to).balance.id,
        i64::MIN <= old(from).balance.value - amount <= i64::MAX,
        i64::MIN <= old(to).balance.value + amount <= i64::MAX,
    ensures
        final(from).balance.value == old(from).balance.value - amount,
        final(to).balance.value == old(to).balance.value + amount,
        final(from).balance.id == old(from).balance.id,
        final(to).balance.id == old(to).balance.id,
        final(t)@ == extended(
            old(t)@,
            seq![
                acquired("transfer"@, "from.balance.lock()"@, old(t)@.held, "Account.balance"@),
                acquired(
                    "transfer"@,
                    "to.balance.lock()"@,
                    old(t)@.held.push("Account.balance"@),
                    "Account.balance"@,
                ),
            ],
        ),
{
    let ghost start = t@;
    let less: i64 = from.balance.value - amount;
    let more: i64 = to.balance.value + amount;
    let class = "Account.balance";
    from.balance.lock_and_set(t, "transfer", "from.balance.lock()", class, less);
    to.balance.lock_and_set(t, "transfer", "to.balance.lock()", class, more);
    t.release();
    t.release();
    assert(t@.held =~= start.held);
    assert(t@.taken =~= start.taken);
    assert(t@.events =~= start.events + seq![
        acquired("transfer"@, "from.balance.lock()"@, start.held, "Account.balance"@),
        acquired(
            "transfer"@,
            "to.balance.lock()"@,
            start.held.push("Account.balance"@),
            "Account.balance"@,
        ),
    ]);
}

}
