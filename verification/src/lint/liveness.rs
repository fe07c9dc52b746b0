//! Which guards are live where.
//!
//! A guard is live from where it is stored or returned by a call to where it is
//! dropped or its storage ends. A plain move hands a guard on without releasing
//! it; `mem::drop` releases it. Where paths join, a guard is live if it is live
//! on any of them.

use vstd::prelude::*;

use crate::lint::classes::{guard_class_of_ty, guard_of};
use crate::lint::mir::{block_in, terminator_in, Block, Body, Statement, TermKind, Terminator};

verus! {

/// Guards released by `mem::drop`: the block that ends with the call, and the
/// local.
pub type Drops = Seq<(usize, usize)>;

/// The local has the type of a guard.
pub open spec fn is_guard(body: Body, l: usize) -> bool {
    l < body.locals@.len() && guard_of(body.locals@[l as int]) is Some
}

/// The statement stores a value in the local.
pub open spec fn stores(s: Statement, l: usize) -> bool {
    match s {
        Statement::Assign(dest, r) => dest.local == l && dest.proj@.len() == 0,
        _ => false,
    }
}

/// Whether the local is live after the first `n` statements of a block, if it
/// was or was not before.
pub open spec fn live_after(b: Block, n: int, l: usize, live: bool) -> bool
    decreases n,
{
    if 0 < n <= b.statements@.len() {
        let s = b.statements@[n - 1];
        stores(s, l) || (live_after(b, n - 1, l, live) && s != Statement::StorageDead(l))
    } else {
        live
    }
}

/// Whether the local is live at the end of a block, before its terminator.
pub open spec fn live_at_end(b: Block, l: usize, live: bool) -> bool {
    live_after(b, b.statements@.len() as int, l, live)
}

/// The terminator drops the local.
pub open spec fn ends_life(t: Terminator, l: usize) -> bool {
    match t.kind {
        TermKind::Drop(p) => p.local == l,
        _ => false,
    }
}

/// The terminator is a call that gives the local its value.
pub open spec fn gives_life(t: Terminator, l: usize) -> bool {
    match t.kind {
        TermKind::Call { callee, args, dest } => dest.local == l && dest.proj@.len() == 0,
        _ => false,
    }
}

/// Whether the local is live after block `b`, if it was or was not before.
pub open spec fn live_out(body: Body, drops: Drops, b: usize, l: usize, live: bool) -> bool {
    let block = body.blocks@[b as int];
    gives_life(block.terminator, l) || (live_at_end(block, l, live) && !ends_life(
        block.terminator,
        l,
    ) && !drops.contains((b, l)))
}

/// Block `b` may follow block `a`.
pub open spec fn follows(body: Body, a: usize, b: usize) -> bool {
    a < body.blocks@.len() && body.blocks@[a as int].terminator.next@.contains(b)
}

/// Some path of at most `n` blocks leads to block `b` with the local live.
pub open spec fn live_by(body: Body, drops: Drops, n: nat, b: usize, l: usize) -> bool
    decreases n,
{
    if n == 0 {
        false
    } else {
        exists|a: usize|
            #[trigger] follows(body, a, b) && live_out(
                body,
                drops,
                a,
                l,
                live_by(body, drops, (n - 1) as nat, a, l),
            )
    }
}

/// Some path leads to block `b` with the local live.
pub open spec fn live_in(body: Body, drops: Drops, b: usize, l: usize) -> bool {
    exists|n: nat| live_by(body, drops, n, b, l)
}

/// The guard is live before the terminator of block `b`.
pub open spec fn guard_live(body: Body, drops: Drops, b: usize, l: usize) -> bool {
    is_guard(body, l) && live_at_end(body.blocks@[b as int], l, live_in(body, drops, b, l))
}

proof fn lemma_live_after_more(b: Block, n: int, l: usize)
    requires
        live_after(b, n, l, false),
    ensures
        live_after(b, n, l, true),
    decreases n,
{
    if 0 < n <= b.statements@.len() {
        if !stores(b.statements@[n - 1], l) {
            lemma_live_after_more(b, n - 1, l);
        }
    }
}

/// What is live without being live before is live in any case.
proof fn lemma_live_out_more(body: Body, drops: Drops, b: usize, l: usize, x: bool, y: bool)
    requires
        live_out(body, drops, b, l, x),
        x ==> y,
    ensures
        live_out(body, drops, b, l, y),
{
    let block = body.blocks@[b as int];
    if x != y && !gives_life(block.terminator, l) {
        lemma_live_after_more(block, block.statements@.len() as int, l);
    }
}

proof fn lemma_live_by_more(body: Body, drops: Drops, n: nat, b: usize, l: usize)
    requires
        live_by(body, drops, n, b, l),
    ensures
        live_by(body, drops, n + 1, b, l),
    decreases n,
{
    let a = choose|a: usize|
        #[trigger] follows(body, a, b) && live_out(
            body,
            drops,
            a,
            l,
            live_by(body, drops, (n - 1) as nat, a, l),
        );
    if live_by(body, drops, (n - 1) as nat, a, l) {
        lemma_live_by_more(body, drops, (n - 1) as nat, a, l);
    }
    lemma_live_out_more(
        body,
        drops,
        a,
        l,
        live_by(body, drops, (n - 1) as nat, a, l),
        live_by(body, drops, n, a, l),
    );
}

/// Liveness passes along every edge.
proof fn lemma_live_passes(body: Body, drops: Drops, a: usize, b: usize, l: usize, live: bool)
    requires
        follows(body, a, b),
        live ==> live_in(body, drops, a, l),
        live_out(body, drops, a, l, live),
    ensures
        live_in(body, drops, b, l),
{
    let n: nat = if live {
        choose|n: nat| live_by(body, drops, n, a, l)
    } else {
        0
    };
    lemma_live_out_more(body, drops, a, l, live, live_by(body, drops, n, a, l));
    assert(live_by(body, drops, n + 1, b, l));
}

/// What is live on entry to each block.
pub struct Live {
    pub entry: Vec<Vec<bool>>,
}

impl Live {
    /// One row for each block, with one entry for each local.
    pub open spec fn shaped(&self, body: Body) -> bool {
        &&& self.entry@.len() == body.blocks@.len()
        &&& forall|b: int|
            0 <= b < self.entry@.len() ==> (#[trigger] self.entry@[b])@.len() == body.locals@.len()
    }

    pub open spec fn at(&self, b: usize, l: usize) -> bool {
        self.entry@[b as int]@[l as int]
    }

    /// The entries for guards are exact, all others are false.
    pub open spec fn solves(&self, body: Body, drops: Drops) -> bool {
        &&& self.shaped(body)
        &&& forall|b: usize, l: usize|
            b < body.blocks@.len() && l < body.locals@.len() ==> #[trigger] self.at(b, l) == (
            is_guard(body, l) && live_in(body, drops, b, l))
    }

    /// Whether the guard `l` is live before the terminator of block `b`.
    pub(crate) fn live_at(&self, body: &Body, Ghost(drops): Ghost<Drops>, b: usize, l: usize) -> (r: bool)
        requires
            self.solves(*body, drops),
            b < body.blocks@.len(),
            l < body.locals@.len(),
            is_guard(*body, l),
        ensures
            r == guard_live(*body, drops, b, l),
    {
        assert(self.entry@[b as int]@.len() == body.locals@.len());
        assert(self.at(b, l) == live_in(*body, drops, b, l));
        end_state(&body.blocks[b], l, self.entry[b][l])
    }
}

/// Whether the local is live at the end of a block.
fn end_state(b: &Block, l: usize, live: bool) -> (r: bool)
    ensures
        r == live_at_end(*b, l, live),
{
    let mut cur: bool = live;
    let mut i: usize = 0;
    while i < b.statements.len()
        invariant
            i <= b.statements@.len(),
            cur == live_after(*b, i as int, l, live),
        decreases b.statements@.len() - i,
    {
        match &b.statements[i] {
            Statement::Assign(dest, _) => {
                if dest.local == l && dest.proj.len() == 0 {
                    cur = true;
                }
            },
            Statement::StorageDead(k) => {
                if *k == l {
                    cur = false;
                }
            },
            Statement::Other => {},
        }
        i = i + 1;
    }
    cur
}

/// Whether `mem::drop` at the end of block `b` releases the local.
fn dropped(drops: &Vec<(usize, usize)>, b: usize, l: usize) -> (r: bool)
    ensures
        r == drops@.contains((b, l)),
{
    let mut i: usize = 0;
    while i < drops.len()
        invariant
            i <= drops@.len(),
            forall|j: int| 0 <= j < i ==> drops@[j] != (b, l),
        decreases drops@.len() - i,
    {
        if drops[i].0 == b && drops[i].1 == l {
            assert(drops@[i as int] == (b, l));
            return true;
        }
        i = i + 1;
    }
    false
}

/// Whether the local is live after block `b`.
fn block_exit(body: &Body, drops: &Vec<(usize, usize)>, b: usize, l: usize, live: bool) -> (r: bool)
    requires
        b < body.blocks@.len(),
    ensures
        r == live_out(*body, drops@, b, l, live),
{
    let block = &body.blocks[b];
    let mut cur: bool = end_state(block, l, live);
    match &block.terminator.kind {
        TermKind::Call { callee: _, args: _, dest } => {
            if dest.local == l && dest.proj.len() == 0 {
                return true;
            }
        },
        TermKind::Drop(p) => {
            if p.local == l {
                cur = false;
            }
        },
        TermKind::Other => {},
    }
    cur && !dropped(drops, b, l)
}

/// How many entries of a row are false.
spec fn row_gaps(row: Seq<bool>) -> nat
    decreases row.len(),
{
    if row.len() == 0 {
        0
    } else {
        row_gaps(row.drop_last()) + if row.last() {
            0nat
        } else {
            1nat
        }
    }
}

/// How many entries are false.
spec fn gaps(rows: Seq<Vec<bool>>) -> nat
    decreases rows.len(),
{
    if rows.len() == 0 {
        0
    } else {
        gaps(rows.drop_last()) + row_gaps(rows.last()@)
    }
}

proof fn lemma_row_gaps(a: Seq<bool>, b: Seq<bool>, i: int)
    requires
        0 <= i < a.len(),
        !a[i],
        b == a.update(i, true),
    ensures
        row_gaps(b) + 1 == row_gaps(a),
    decreases a.len(),
{
    if i < a.len() - 1 {
        assert(b.drop_last() =~= a.drop_last().update(i, true));
        lemma_row_gaps(a.drop_last(), b.drop_last(), i);
    } else {
        assert(b.drop_last() =~= a.drop_last());
    }
}

proof fn lemma_gaps(a: Seq<Vec<bool>>, b: Seq<Vec<bool>>, k: int)
    requires
        0 <= k < a.len(),
        a.len() == b.len(),
        forall|j: int| 0 <= j < a.len() && j != k ==> a[j] == b[j],
        row_gaps(b[k]@) + 1 == row_gaps(a[k]@),
    ensures
        gaps(b) + 1 == gaps(a),
    decreases a.len(),
{
    if k < a.len() - 1 {
        lemma_gaps(a.drop_last(), b.drop_last(), k);
    } else {
        assert(a.drop_last() =~= b.drop_last());
    }
}

/// Every guard that is live after block `a` is live on entry to its successors
/// among the first `n`.
spec fn passed_on(live: Live, body: Body, drops: Drops, a: usize, n: int) -> bool {
    forall|i: int, l: usize|
        0 <= i < n && is_guard(body, l) && live_out(body, drops, a, l, live.at(a, l))
            ==> #[trigger] live.at(body.blocks@[a as int].terminator.next@[i], l)
}

/// The guards of a body, by local.
pub fn guards(body: &Body) -> (r: Vec<bool>)
    ensures
        r@.len() == body.locals@.len(),
        forall|l: usize| l < body.locals@.len() ==> #[trigger] r@[l as int] == is_guard(*body, l),
{
    let mut out: Vec<bool> = Vec::new();
    let mut l: usize = 0;
    while l < body.locals.len()
        invariant
            l <= body.locals@.len(),
            out@.len() == l,
            forall|k: usize| k < l ==> #[trigger] out@[k as int] == is_guard(*body, k),
        decreases body.locals@.len() - l,
    {
        out.push(guard_class_of_ty(&body.locals[l]).is_some());
        l = l + 1;
    }
    out
}

/// Every true entry is right.
spec fn sound(live: Live, body: Body, drops: Drops) -> bool {
    &&& live.shaped(body)
    &&& forall|b: usize, l: usize|
        b < body.blocks@.len() && l < body.locals@.len() && #[trigger] live.at(b, l) ==> is_guard(
            body,
            l,
        ) && live_in(body, drops, b, l)
}

proof fn lemma_live_by_found(live: Live, body: Body, drops: Drops, n: nat, b: usize, l: usize)
    requires
        body.wf(),
        sound(live, body, drops),
        forall|a: usize|
            a < body.blocks@.len() ==> #[trigger] passed_on(
                live,
                body,
                drops,
                a,
                body.blocks@[a as int].terminator.next@.len() as int,
            ),
        b < body.blocks@.len(),
        is_guard(body, l),
        live_by(body, drops, n, b, l),
    ensures
        live.at(b, l),
    decreases n,
{
    let a = choose|a: usize|
        #[trigger] follows(body, a, b) && live_out(
            body,
            drops,
            a,
            l,
            live_by(body, drops, (n - 1) as nat, a, l),
        );
    if live_by(body, drops, (n - 1) as nat, a, l) {
        lemma_live_by_found(live, body, drops, (n - 1) as nat, a, l);
    }
    lemma_live_out_more(
        body,
        drops,
        a,
        l,
        live_by(body, drops, (n - 1) as nat, a, l),
        live.at(a, l),
    );
    let next = body.blocks@[a as int].terminator.next@;
    assert(passed_on(live, body, drops, a, next.len() as int));
    let i = choose|i: int| 0 <= i < next.len() && next[i] == b;
    assert(live.at(next[i], l));
}

proof fn lemma_solved(live: Live, body: Body, drops: Drops)
    requires
        body.wf(),
        sound(live, body, drops),
        forall|a: usize|
            a < body.blocks@.len() ==> #[trigger] passed_on(
                live,
                body,
                drops,
                a,
                body.blocks@[a as int].terminator.next@.len() as int,
            ),
    ensures
        live.solves(body, drops),
{
    assert forall|b: usize, l: usize|
        b < body.blocks@.len() && l < body.locals@.len() implies #[trigger] live.at(b, l) == (
    is_guard(body, l) && live_in(body, drops, b, l)) by {
        if is_guard(body, l) && live_in(body, drops, b, l) {
            let n = choose|n: nat| live_by(body, drops, n, b, l);
            lemma_live_by_found(live, body, drops, n, b, l);
        }
    }
}

impl Live {
    /// Nothing is live.
    fn none(body: &Body) -> (r: Live)
        ensures
            r.shaped(*body),
            forall|b: usize, l: usize|
                b < body.blocks@.len() && l < body.locals@.len() ==> !#[trigger] r.at(b, l),
    {
        let mut entry: Vec<Vec<bool>> = Vec::new();
        let mut b: usize = 0;
        while b < body.blocks.len()
            invariant
                b <= body.blocks@.len(),
                entry@.len() == b,
                forall|k: int|
                    0 <= k < b ==> (#[trigger] entry@[k])@.len() == body.locals@.len() && forall|
                        l: int,
                    |
                        0 <= l < body.locals@.len() ==> !#[trigger] entry@[k]@[l],
            decreases body.blocks@.len() - b,
        {
            let mut row: Vec<bool> = Vec::new();
            let mut l: usize = 0;
            while l < body.locals.len()
                invariant
                    l <= body.locals@.len(),
                    row@.len() == l,
                    forall|k: int| 0 <= k < l ==> !row@[k],
                decreases body.locals@.len() - l,
            {
                row.push(false);
                l = l + 1;
            }
            entry.push(row);
            b = b + 1;
        }
        Live { entry }
    }

    /// Makes the guard `l` live on entry to block `b`.
    fn set(&mut self, body: &Body, Ghost(drops): Ghost<Drops>, b: usize, l: usize)
        requires
            sound(*old(self), *body, drops),
            b < body.blocks@.len(),
            l < body.locals@.len(),
            !old(self).at(b, l),
            is_guard(*body, l),
            live_in(*body, drops, b, l),
        ensures
            sound(*final(self), *body, drops),
            gaps(final(self).entry@) + 1 == gaps(old(self).entry@),
    {
        let ghost before = self.entry@;
        assert(before[b as int]@.len() == body.locals@.len());
        let mut row = self.entry.remove(b);
        let ghost row0 = row@;
        row.set(l, true);
        self.entry.insert(b, row);
        proof {
            let now = self.entry@;
            assert(now =~= before.update(b as int, row));
            lemma_row_gaps(row0, row@, l as int);
            lemma_gaps(before, now, b as int);
            assert forall|c: usize, k: usize|
                c < body.blocks@.len() && k < body.locals@.len() && #[trigger] self.at(
                    c,
                    k,
                ) implies is_guard(*body, k) && live_in(*body, drops, c, k) by {
                if c == b && k == l {
                } else {
                    assert(old(self).at(c, k));
                }
            }
        }
    }
}

/// Passes what is live after block `a` on to the block `b`.
fn pass_on(
    live: &mut Live,
    body: &Body,
    is_guard_local: &Vec<bool>,
    drops: &Vec<(usize, usize)>,
    a: usize,
    b: usize,
) -> (changed: bool)
    requires
        body.wf(),
        sound(*old(live), *body, drops@),
        is_guard_local@.len() == body.locals@.len(),
        forall|l: usize|
            l < body.locals@.len() ==> #[trigger] is_guard_local@[l as int] == is_guard(*body, l),
        a < body.blocks@.len(),
        b < body.blocks@.len(),
        follows(*body, a, b),
    ensures
        sound(*final(live), *body, drops@),
        changed ==> gaps(final(live).entry@) < gaps(old(live).entry@),
        !changed ==> final(live).entry@ == old(live).entry@ && forall|l: usize|
            is_guard(*body, l) && live_out(*body, drops@, a, l, old(live).at(a, l))
                ==> #[trigger] old(live).at(b, l),
{
    let mut changed: bool = false;
    let mut l: usize = 0;
    while l < body.locals.len()
        invariant
            body.wf(),
            sound(*live, *body, drops@),
            is_guard_local@.len() == body.locals@.len(),
            forall|k: usize|
                k < body.locals@.len() ==> #[trigger] is_guard_local@[k as int] == is_guard(
                    *body,
                    k,
                ),
            a < body.blocks@.len(),
            b < body.blocks@.len(),
            follows(*body, a, b),
            l <= body.locals@.len(),
            changed ==> gaps(live.entry@) < gaps(old(live).entry@),
            !changed ==> live.entry@ == old(live).entry@ && forall|k: usize|
                k < l && is_guard(*body, k) && live_out(*body, drops@, a, k, old(live).at(a, k))
                    ==> #[trigger] old(live).at(b, k),
        decreases body.locals@.len() - l,
    {
        if is_guard_local[l] {
            assert(live.entry@[a as int]@.len() == body.locals@.len());
            assert(live.entry@[b as int]@.len() == body.locals@.len());
            let here: bool = live.entry[a][l];
            let there: bool = live.entry[b][l];
            assert(here == live.at(a, l));
            assert(there == live.at(b, l));
            if !there && block_exit(body, drops, a, l, here) {
                proof {
                    lemma_live_passes(*body, drops@, a, b, l, here);
                }
                live.set(body, Ghost(drops@), b, l);
                changed = true;
            }
        }
        l = l + 1;
    }
    changed
}

/// What is live on entry to each block: the least solution.
pub fn solve_live(body: &Body, drops: &Vec<(usize, usize)>) -> (r: Live)
    requires
        body.wf(),
    ensures
        r.solves(*body, drops@),
{
    let gs = guards(body);
    let mut live = Live::none(body);
    loop
        invariant
            body.wf(),
            sound(live, *body, drops@),
            gs@.len() == body.locals@.len(),
            forall|l: usize|
                l < body.locals@.len() ==> #[trigger] gs@[l as int] == is_guard(*body, l),
        decreases gaps(live.entry@),
    {
        let ghost start = live;
        let mut changed: bool = false;
        let mut a: usize = 0;
        while a < body.blocks.len()
            invariant
                body.wf(),
                sound(live, *body, drops@),
                gs@.len() == body.locals@.len(),
                forall|l: usize|
                    l < body.locals@.len() ==> #[trigger] gs@[l as int] == is_guard(*body, l),
                a <= body.blocks@.len(),
                changed ==> gaps(live.entry@) < gaps(start.entry@),
                !changed ==> live.entry@ == start.entry@ && forall|k: usize|
                    k < a ==> #[trigger] passed_on(
                        start,
                        *body,
                        drops@,
                        k,
                        body.blocks@[k as int].terminator.next@.len() as int,
                    ),
            decreases body.blocks@.len() - a,
        {
            assert(block_in(
                body.blocks@[a as int],
                body.locals@.len(),
                body.blocks@.len(),
            ));
            let next = &body.blocks[a].terminator.next;
            let mut i: usize = 0;
            while i < next.len()
                invariant
                    body.wf(),
                    sound(live, *body, drops@),
                    gs@.len() == body.locals@.len(),
                    forall|l: usize|
                        l < body.locals@.len() ==> #[trigger] gs@[l as int] == is_guard(*body, l),
                    a < body.blocks@.len(),
                    next == &body.blocks@[a as int].terminator.next,
                    terminator_in(
                        body.blocks@[a as int].terminator,
                        body.locals@.len(),
                        body.blocks@.len(),
                    ),
                    i <= next@.len(),
                    changed ==> gaps(live.entry@) < gaps(start.entry@),
                    !changed ==> live.entry@ == start.entry@ && passed_on(
                        start,
                        *body,
                        drops@,
                        a,
                        i as int,
                    ) && forall|k: usize|
                        k < a ==> #[trigger] passed_on(
                            start,
                            *body,
                            drops@,
                            k,
                            body.blocks@[k as int].terminator.next@.len() as int,
                        ),
                decreases next@.len() - i,
            {
                let b: usize = next[i];
                assert(next@.contains(b));
                assert(follows(*body, a, b));
                let ghost before = live;
                let ch = pass_on(&mut live, body, &gs, drops, a, b);
                proof {
                    if !ch && !changed {
                        assert forall|j: int, l: usize|
                            0 <= j < i + 1 && is_guard(*body, l) && live_out(
                                *body,
                                drops@,
                                a,
                                l,
                                start.at(a, l),
                            ) implies #[trigger] start.at(next@[j], l) by {
                            if j == i {
                                assert(before.at(a, l) == start.at(a, l));
                                assert(before.at(b, l));
                            }
                        }
                    }
                }
                if ch {
                    changed = true;
                }
                i = i + 1;
            }
            a = a + 1;
        }
        if !changed {
            proof {
                assert forall|k: usize| k < body.blocks@.len() implies #[trigger] passed_on(
                    live,
                    *body,
                    drops@,
                    k,
                    body.blocks@[k as int].terminator.next@.len() as int,
                ) by {
                    assert(passed_on(
                        start,
                        *body,
                        drops@,
                        k,
                        body.blocks@[k as int].terminator.next@.len() as int,
                    ));
                    assert forall|j: int, l: usize|
                        0 <= j < body.blocks@[k as int].terminator.next@.len() && is_guard(
                            *body,
                            l,
                        ) && live_out(
                            *body,
                            drops@,
                            k,
                            l,
                            live.at(k, l),
                        ) implies #[trigger] live.at(
                        body.blocks@[k as int].terminator.next@[j],
                        l,
                    ) by {
                        assert(start.at(k, l) == live.at(k, l));
                        assert(start.at(body.blocks@[k as int].terminator.next@[j], l));
                    }
                }
                lemma_solved(live, *body, drops@);
            }
            return live;
        }
    }
}

/// Along the path of blocks `path`, starting with nothing live, the local is
/// live at the end.
pub open spec fn live_along(body: Body, drops: Drops, path: Seq<usize>, l: usize) -> bool
    decreases path.len(),
{
    path.len() > 0 && live_out(
        body,
        drops,
        path.last(),
        l,
        live_along(body, drops, path.drop_last(), l),
    )
}

/// The blocks `path` follow one another, and `b` may follow the last.
pub open spec fn is_path(body: Body, path: Seq<usize>, b: usize) -> bool {
    &&& forall|i: int|
        0 <= i < path.len() - 1 ==> follows(body, #[trigger] path[i], path[i + 1])
    &&& path.len() > 0 ==> follows(body, path.last(), b)
}

/// A local is live on entry to a block exactly if it is live along some path
/// that leads there: nothing held on any path is missing, and nothing is added.
pub proof fn live_iff_live_along_a_path(body: Body, drops: Drops, b: usize, l: usize)
    ensures
        live_in(body, drops, b, l) <==> exists|path: Seq<usize>|
            is_path(body, path, b) && #[trigger] live_along(body, drops, path, l),
{
    if live_in(body, drops, b, l) {
        let n = choose|n: nat| live_by(body, drops, n, b, l);
        let path = lemma_path(body, drops, n, b, l);
        assert(live_along(body, drops, path, l));
    }
    if exists|path: Seq<usize>|
        is_path(body, path, b) && #[trigger] live_along(body, drops, path, l) {
        let path = choose|path: Seq<usize>|
            is_path(body, path, b) && #[trigger] live_along(body, drops, path, l);
        lemma_along(body, drops, path, b, l);
    }
}

proof fn lemma_path(body: Body, drops: Drops, n: nat, b: usize, l: usize) -> (path: Seq<usize>)
    requires
        live_by(body, drops, n, b, l),
    ensures
        is_path(body, path, b),
        live_along(body, drops, path, l),
    decreases n,
{
    let a = choose|a: usize|
        #[trigger] follows(body, a, b) && live_out(
            body,
            drops,
            a,
            l,
            live_by(body, drops, (n - 1) as nat, a, l),
        );
    let before = if live_by(body, drops, (n - 1) as nat, a, l) {
        lemma_path(body, drops, (n - 1) as nat, a, l)
    } else {
        Seq::empty()
    };
    let path = before.push(a);
    assert(path.drop_last() =~= before);
    lemma_live_out_more(
        body,
        drops,
        a,
        l,
        live_by(body, drops, (n - 1) as nat, a, l),
        live_along(body, drops, before, l),
    );
    assert forall|i: int| 0 <= i < path.len() - 1 implies follows(
        body,
        #[trigger] path[i],
        path[i + 1],
    ) by {
        if i < before.len() - 1 {
            assert(follows(body, before[i], before[i + 1]));
        }
    }
    path
}

proof fn lemma_along(body: Body, drops: Drops, path: Seq<usize>, b: usize, l: usize)
    requires
        is_path(body, path, b),
        live_along(body, drops, path, l),
    ensures
        live_in(body, drops, b, l),
    decreases path.len(),
{
    let before = path.drop_last();
    let a = path.last();
    let live = live_along(body, drops, before, l);
    if live {
        assert(is_path(body, before, a)) by {
            assert forall|i: int| 0 <= i < before.len() - 1 implies follows(
                body,
                #[trigger] before[i],
                before[i + 1],
            ) by {
                assert(follows(body, path[i], path[i + 1]));
            }
            if before.len() > 0 {
                let k = path.len() - 2;
                assert(follows(body, path[k], path[k + 1]));
            }
        }
        lemma_along(body, drops, before, a, l);
    }
    lemma_live_passes(body, drops, a, b, l, live);
}

/// Statement `j` of the block stores a value in the local, and its storage does
/// not end behind that.
pub open spec fn stored_at(b: Block, j: int, l: usize) -> bool {
    &&& 0 <= j < b.statements@.len()
    &&& b.statements@[j] matches Statement::Assign(dest, _) && dest.local == l
        && dest.proj@.len() == 0
    &&& forall|i: int|
        j < i < b.statements@.len() ==> #[trigger] b.statements@[i] != Statement::StorageDead(l)
}

/// The storage of the local does not end in the block.
pub open spec fn is_kept(b: Block, l: usize) -> bool {
    forall|i: int|
        0 <= i < b.statements@.len() ==> #[trigger] b.statements@[i] != Statement::StorageDead(l)
}

/// The call at the end of block `b` returns into the local.
pub open spec fn returned_from(body: Body, b: usize, l: usize) -> bool {
    body.blocks@[b as int].terminator.kind matches TermKind::Call { callee, args, dest }
        && dest.local == l && dest.proj@.len() == 0
}

/// The end of block `b` drops the local, or releases it.
pub open spec fn ended_by(body: Body, drops: Drops, b: usize, l: usize) -> bool {
    ||| body.blocks@[b as int].terminator.kind matches TermKind::Drop(p) && p.local == l
    ||| drops.contains((b, l))
}

/// The local gets its value in block `b` and keeps it to the end of the block.
pub open spec fn begins_in(body: Body, drops: Drops, b: usize, l: usize) -> bool {
    ||| returned_from(body, b, l)
    ||| !ended_by(body, drops, b, l) && exists|j: int| #[trigger]
        stored_at(body.blocks@[b as int], j, l)
}

/// The local keeps its value throughout block `b`.
pub open spec fn goes_through(body: Body, drops: Drops, b: usize, l: usize) -> bool {
    is_kept(body.blocks@[b as int], l) && !ended_by(body, drops, b, l)
}

/// Along the path the local gets a value in block number `i` and keeps it from
/// there on.
pub open spec fn kept_from(body: Body, drops: Drops, path: Seq<usize>, i: int, l: usize) -> bool {
    &&& 0 <= i < path.len()
    &&& begins_in(body, drops, path[i], l)
    &&& forall|j: int|
        i < j < path.len() ==> goes_through(body, drops, #[trigger] path[j], l)
}

proof fn lemma_within(b: Block, n: int, l: usize, live: bool)
    requires
        0 <= n <= b.statements@.len(),
    ensures
        live_after(b, n, l, live) <==> {
            ||| live && forall|i: int|
                0 <= i < n ==> #[trigger] b.statements@[i] != Statement::StorageDead(l)
            ||| exists|j: int|
                0 <= j < n && stores(#[trigger] b.statements@[j], l) && forall|i: int|
                    j < i < n ==> #[trigger] b.statements@[i] != Statement::StorageDead(l)
        },
    decreases n,
{
    if n > 0 {
        lemma_within(b, n - 1, l, live);
        let last = b.statements@[n - 1];
        if live_after(b, n, l, live) {
            if stores(last, l) {
                assert(forall|i: int|
                    n - 1 < i < n ==> #[trigger] b.statements@[i] != Statement::StorageDead(l));
            }
        } else {
            assert(!stores(last, l));
        }
    }
}

/// Whether the local is live at the end of a block: it is stored there and its
/// storage does not end behind that, or it was live and is kept.
proof fn lemma_at_end(b: Block, l: usize, live: bool)
    ensures
        live_at_end(b, l, live) <==> (exists|j: int| #[trigger] stored_at(b, j, l)) || live
            && is_kept(b, l),
{
    let n = b.statements@.len() as int;
    lemma_within(b, n, l, live);
    if exists|j: int| #[trigger] stored_at(b, j, l) {
        let j = choose|j: int| #[trigger] stored_at(b, j, l);
        assert(stores(b.statements@[j], l));
    }
    if exists|j: int|
        0 <= j < n && stores(#[trigger] b.statements@[j], l) && forall|i: int|
            j < i < n ==> #[trigger] b.statements@[i] != Statement::StorageDead(l) {
        let j = choose|j: int|
            0 <= j < n && stores(#[trigger] b.statements@[j], l) && forall|i: int|
                j < i < n ==> #[trigger] b.statements@[i] != Statement::StorageDead(l);
        assert(stored_at(b, j, l));
    }
}

proof fn lemma_kept(body: Body, drops: Drops, path: Seq<usize>, l: usize)
    ensures
        live_along(body, drops, path, l) <==> exists|i: int| #[trigger]
            kept_from(body, drops, path, i, l),
    decreases path.len(),
{
    if path.len() > 0 {
        let r = path.drop_last();
        let last = path.last();
        let n = path.len() - 1;
        let live = live_along(body, drops, r, l);
        lemma_kept(body, drops, r, l);
        lemma_at_end(body.blocks@[last as int], l, live);
        if live && goes_through(body, drops, last, l) {
            let i = choose|i: int| #[trigger] kept_from(body, drops, r, i, l);
            assert forall|j: int| i < j < path.len() implies goes_through(
                body,
                drops,
                #[trigger] path[j],
                l,
            ) by {
                if j < n {
                    assert(path[j] == r[j]);
                }
            }
            assert(path[i] == r[i]);
            assert(kept_from(body, drops, path, i, l));
        }
        if begins_in(body, drops, last, l) {
            assert(kept_from(body, drops, path, n, l));
        }
        if exists|i: int| #[trigger] kept_from(body, drops, path, i, l) {
            let i = choose|i: int| #[trigger] kept_from(body, drops, path, i, l);
            if i < n {
                assert(goes_through(body, drops, path[n], l));
                assert(path[i] == r[i]);
                assert forall|j: int| i < j < r.len() implies goes_through(
                    body,
                    drops,
                    #[trigger] r[j],
                    l,
                ) by {
                    assert(path[j] == r[j]);
                }
                assert(kept_from(body, drops, r, i, l));
            }
        }
    }
}

/// Block `b` is one of those that may follow block `a`.
pub open spec fn is_next(body: Body, a: usize, b: usize) -> bool {
    a < body.blocks@.len() && exists|k: int|
        0 <= k < body.blocks@[a as int].terminator.next@.len()
            && #[trigger] body.blocks@[a as int].terminator.next@[k] == b
}

/// From each block of the path the next one may follow, and from the last block
/// `b`.
pub open spec fn leads_to(body: Body, path: Seq<usize>, b: usize) -> bool {
    forall|i: int|
        0 <= i < path.len() ==> is_next(
            body,
            #[trigger] path[i],
            if i + 1 < path.len() {
                path[i + 1]
            } else {
                b
            },
        )
}

proof fn lemma_leads(body: Body, path: Seq<usize>, b: usize)
    ensures
        leads_to(body, path, b) == is_path(body, path, b),
{
    assert forall|x: usize, y: usize| #[trigger] is_next(body, x, y) == follows(body, x, y) by {
        if follows(body, x, y) {
            let q = body.blocks@[x as int].terminator.next@;
            let k = choose|k: int| 0 <= k < q.len() && q[k] == y;
            assert(body.blocks@[x as int].terminator.next@[k] == y);
        }
    }
    if leads_to(body, path, b) {
        assert forall|i: int| 0 <= i < path.len() - 1 implies follows(
            body,
            #[trigger] path[i],
            path[i + 1],
        ) by {
            assert(is_next(body, path[i], path[i + 1]));
        }
        if path.len() > 0 {
            assert(is_next(body, path[path.len() - 1], b));
        }
    }
    if is_path(body, path, b) {
        assert forall|i: int| 0 <= i < path.len() implies is_next(
            body,
            #[trigger] path[i],
            if i + 1 < path.len() {
                path[i + 1]
            } else {
                b
            },
        ) by {
            if i + 1 < path.len() {
                assert(follows(body, path[i], path[i + 1]));
                assert(is_next(body, path[i], path[i + 1]));
            } else {
                assert(path.last() == path[i]);
                assert(is_next(body, path[i], b));
            }
        }
    }
}

/// A guard is live before the call at the end of a block exactly if it is stored
/// in the block, and its storage does not end behind that; or if on some path
/// that leads there it was stored or returned, and since then it was neither
/// dropped nor released and its storage did not end.
pub proof fn guards_are_live_from_store_to_release(
    body: Body,
    drops: Drops,
    b: usize,
    l: usize,
)
    ensures
        guard_live(body, drops, b, l) <==> {
            &&& is_guard(body, l)
            &&& {
                ||| exists|j: int| #[trigger] stored_at(body.blocks@[b as int], j, l)
                ||| is_kept(body.blocks@[b as int], l) && exists|path: Seq<usize>, i: int|
                    leads_to(body, path, b) && #[trigger] kept_from(body, drops, path, i, l)
            }
        },
{
    lemma_at_end(body.blocks@[b as int], l, live_in(body, drops, b, l));
    live_iff_live_along_a_path(body, drops, b, l);
    if live_in(body, drops, b, l) {
        let path = choose|path: Seq<usize>|
            is_path(body, path, b) && #[trigger] live_along(body, drops, path, l);
        lemma_kept(body, drops, path, l);
        let i = choose|i: int| #[trigger] kept_from(body, drops, path, i, l);
        lemma_leads(body, path, b);
        assert(leads_to(body, path, b) && kept_from(body, drops, path, i, l));
    }
    if exists|path: Seq<usize>, i: int|
        leads_to(body, path, b) && #[trigger] kept_from(body, drops, path, i, l) {
        let (path, i) = choose|path: Seq<usize>, i: int|
            leads_to(body, path, b) && #[trigger] kept_from(body, drops, path, i, l);
        lemma_leads(body, path, b);
        lemma_kept(body, drops, path, l);
        assert(live_along(body, drops, path, l));
    }
}

}
