//! The analysis reports: safe.
//!
//! The lock is taken and released once per iteration; never two at once.

use vstd::prelude::*;

use crate::corpus::trace::{acquired, extended, is_free, Mutex, Trace};
use crate::model::EventV;

verus! {

pub struct S {
    pub m: Mutex<i32>,
}

/// Takes and releases `m`, `n` times.
pub fn pump(s: &S, n: u32, t: &mut Trace)
    requires
        n > 0 ==> is_free(old(t)@, s.m.id),
    ensures
        final(t)@ == extended(
            old(t)@,
            Seq::new(
                n as nat,
                |i: int| acquired("pump"@, "s.m.lock()"@, old(t)@.held, "S.m"@),
            ),
        ),
{
    let ghost start = t@;
    let ghost one = acquired("pump"@, "s.m.lock()"@, start.held, "S.m"@);
    let mut i: u32 = 0;
    assert(t@.events =~= start.events + Seq::<EventV>::new(0, |k: int| one));
    while i < n
        invariant
            i <= n,
            n > 0 ==> is_free(start, s.m.id),
            one == acquired("pump"@, "s.m.lock()"@, start.held, "S.m"@),
            t@ == extended(start, Seq::<EventV>::new(i as nat, |k: int| one)),
        decreases n - i,
    {
        let ghost before = t@;
        let _ = s.m.lock(t, "pump", "s.m.lock()", "S.m");
        t.release();
        i = i + 1;
        assert(t@.held =~= start.held);
        assert(t@.taken =~= start.taken);
        assert(t@.events =~= before.events.push(one));
        assert(t@.events =~= start.events + Seq::<EventV>::new(i as nat, |k: int| one));
    }
    assert(t@.events =~= start.events + Seq::new(
        n as nat,
        |i: int| acquired("pump"@, "s.m.lock()"@, start.held, "S.m"@),
    ));
}

}
