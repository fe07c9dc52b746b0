//! How values are traced and named: definitions, moves and copies, parameters,
//! guards by their types, and the classes of the locks in statics and fields.

use vstd::prelude::*;

use crate::lint::classes::{
    accessor_of, copied_from, defined_by, defining_calls, guard_of, is_param, is_referent,
    is_result, is_untouched, lock_by_call, lock_of, moves, param_of, reads, referent_of, referred,
    returned_path, root_of, show_elem, shown_from, shown_path, static_of, step_back, AccessorV,
    CrateV, PathV, ShownV, Tally,
};
use crate::lint::mir::{
    assigned_by, assigned_in, assigned_to, block_in, operand_in, place_of, statement_in,
    terminator_in, Body, Elem, Operand, Place, Rvalue, Statement, TermKind, Ty, TyKind,
};
use crate::lint::paths::{erased, has_part, has_prefix, stands_at};
use crate::lint::scan::{accessors_in, crate_of, is_unambiguous, summary_of};
use crate::text::{dec, Name};

verus! {

/// The text `t` is somewhere in the path.
pub open spec fn mentions(p: Name, t: Name) -> bool {
    exists|front: Name, rest: Name| p == #[trigger] (front + t + rest)
}

/// The path is that of an asynchronous or model-checking library.
pub open spec fn is_foreign(p: Name) -> bool {
    mentions(p, "async"@) || mentions(p, "tokio"@) || mentions(p, "future"@) || mentions(
        p,
        "loom"@,
    )
}

proof fn lemma_mentions(p: Name, t: Name)
    ensures
        mentions(p, t) == has_part(p, t),
{
    if mentions(p, t) {
        let (front, rest) = choose|front: Name, rest: Name| p == #[trigger] (front + t + rest);
        let i = front.len() as int;
        assert(p.subrange(i, i + t.len()) =~= t);
        assert(stands_at(p, t, i));
    }
    if has_part(p, t) {
        let i = choose|i: int| stands_at(p, t, i);
        assert(p =~= p.take(i) + t + p.skip(i + t.len()));
    }
}

/// A type is a guard exactly if it is a struct whose path names one of the three
/// guard types, of a library that blocks.
pub proof fn guards_are_known_by_their_type(ty: Ty)
    ensures
        guard_of(ty) is Some <==> {
            &&& ty.kind is Adt
            &&& !is_foreign(ty.kind->path@)
            &&& {
                ||| mentions(ty.kind->path@, "MutexGuard"@)
                ||| mentions(ty.kind->path@, "RwLockReadGuard"@)
                ||| mentions(ty.kind->path@, "RwLockWriteGuard"@)
            }
        },
{
    if let TyKind::Adt { path, args, fields } = ty.kind {
        lemma_mentions(path@, "async"@);
        lemma_mentions(path@, "tokio"@);
        lemma_mentions(path@, "future"@);
        lemma_mentions(path@, "loom"@);
        lemma_mentions(path@, "MutexGuard"@);
        lemma_mentions(path@, "RwLockReadGuard"@);
        lemma_mentions(path@, "RwLockWriteGuard"@);
    }
}

/// What a guard protects is its first type argument, in `parking_lot` and
/// `lock_api` the second.
pub proof fn guards_show_what_they_protect(ty: Ty, rest: Name)
    requires
        guard_of(ty) is Some,
    ensures
        ({
            let path = ty.kind->path@;
            let args = ty.kind->args@;
            &&& path == "parking_lot"@ + rest || path == "lock_api"@ + rest ==> {
                &&& args.len() > 1 ==> (guard_of(ty)->0).data == args[1]@
                &&& args.len() <= 1 ==> (guard_of(ty)->0).data == "_"@
            }
            &&& !has_prefix(path, "parking_lot"@) && !has_prefix(path, "lock_api"@) ==> {
                &&& args.len() > 0 ==> (guard_of(ty)->0).data == args[0]@
                &&& args.len() == 0 ==> (guard_of(ty)->0).data == "_"@
            }
        }),
{
    let path = ty.kind->path@;
    let a = "parking_lot"@;
    let b = "lock_api"@;
    assert((a + rest).take(a.len() as int) =~= a);
    assert((b + rest).take(b.len() as int) =~= b);
}

/// Statement `j` of block `b` assigns to the whole of the local.
pub open spec fn assigns_at(body: Body, b: int, j: int, local: usize) -> bool {
    &&& 0 <= b < body.blocks@.len()
    &&& 0 <= j < body.blocks@[b].statements@.len()
    &&& body.blocks@[b].statements@[j] matches Statement::Assign(dest, _) && dest.local == local
        && dest.proj@.len() == 0
}

/// What statement `j` of block `b` assigns.
pub open spec fn assigned_at(body: Body, b: int, j: int) -> Rvalue {
    body.blocks@[b].statements@[j]->Assign_1
}

/// Where the assignment stands in the list.
spec fn place_in_list(body: Body, b: int, j: int, local: usize) -> int {
    let before = assigned_in(body, b, local).len() as int;
    before + assigned_by(body.blocks@[b].statements@, j, local).len()
}

proof fn lemma_by_prefix(q: Seq<Statement>, m: int, n: int, local: usize)
    requires
        0 <= m <= n <= q.len(),
    ensures
        assigned_by(q, m, local).len() <= assigned_by(q, n, local).len(),
        forall|i: int|
            0 <= i < assigned_by(q, m, local).len() ==> #[trigger] assigned_by(q, m, local)[i]
                == assigned_by(q, n, local)[i],
    decreases n,
{
    if m < n {
        lemma_by_prefix(q, m, n - 1, local);
    }
}

proof fn lemma_in_prefix(body: Body, m: int, n: int, local: usize)
    requires
        0 <= m <= n <= body.blocks@.len(),
    ensures
        assigned_in(body, m, local).len() <= assigned_in(body, n, local).len(),
        forall|i: int|
            0 <= i < assigned_in(body, m, local).len() ==> #[trigger] assigned_in(body, m, local)[i]
                == assigned_in(body, n, local)[i],
    decreases n,
{
    if m < n {
        lemma_in_prefix(body, m, n - 1, local);
    }
}

/// Every assignment has its place in the list.
proof fn lemma_listed(body: Body, b: int, j: int, local: usize)
    requires
        assigns_at(body, b, j, local),
    ensures
        0 <= place_in_list(body, b, j, local) < assigned_to(body, local).len(),
        assigned_to(body, local)[place_in_list(body, b, j, local)] == assigned_at(body, b, j),
        place_in_list(body, b, j, local) < assigned_in(body, b + 1, local).len(),
        assigned_by(body.blocks@[b].statements@, j + 1, local).len() == assigned_by(
            body.blocks@[b].statements@,
            j,
            local,
        ).len() + 1,
{
    let q = body.blocks@[b].statements@;
    let n = q.len() as int;
    lemma_by_prefix(q, j + 1, n, local);
    let k = assigned_by(q, j, local).len() as int;
    assert(assigned_by(q, j + 1, local)[k] == assigned_at(body, b, j));
    lemma_in_prefix(body, b + 1, body.blocks@.len() as int, local);
    let p = place_in_list(body, b, j, local);
    assert(assigned_in(body, b + 1, local)[p] == assigned_by(q, n, local)[k]);
}

/// The definitions of a local are the assignments to it, each of them counted
/// once: two of them make two definitions.
pub proof fn definitions_are_the_assignments(
    body: Body,
    local: usize,
    b: int,
    j: int,
    c: int,
    k: int,
)
    requires
        assigns_at(body, b, j, local),
        assigns_at(body, c, k, local),
    ensures
        assigned_to(body, local).contains(assigned_at(body, b, j)),
        assigned_to(body, local).len() == 1 ==> assigned_to(body, local)[0] == assigned_at(
            body,
            b,
            j,
        ),
        (b, j) != (c, k) ==> assigned_to(body, local).len() >= 2,
{
    lemma_listed(body, b, j, local);
    lemma_listed(body, c, k, local);
    let x = place_in_list(body, b, j, local);
    let y = place_in_list(body, c, k, local);
    if b < c {
        lemma_in_prefix(body, b + 1, c, local);
    } else if c < b {
        lemma_in_prefix(body, c + 1, b, local);
    } else if j < k {
        lemma_by_prefix(body.blocks@[b].statements@, j + 1, k, local);
    } else if k < j {
        lemma_by_prefix(body.blocks@[b].statements@, k + 1, j, local);
    }
    assert(assigned_to(body, local)[x] == assigned_at(body, b, j));
}

proof fn lemma_some_statement(body: Body, b: int, n: int, local: usize, i: int)
    requires
        0 <= b < body.blocks@.len(),
        0 <= n <= body.blocks@[b].statements@.len(),
        0 <= i < assigned_by(body.blocks@[b].statements@, n, local).len(),
    ensures
        exists|j: int| #[trigger]
            assigns_at(body, b, j, local) && assigned_at(body, b, j) == assigned_by(
                body.blocks@[b].statements@,
                n,
                local,
            )[i],
    decreases n,
{
    let q = body.blocks@[b].statements@;
    if n > 0 {
        if i < assigned_by(q, n - 1, local).len() {
            lemma_some_statement(body, b, n - 1, local, i);
        } else {
            assert(assigns_at(body, b, n - 1, local));
        }
    }
}

proof fn lemma_some_block(body: Body, n: int, local: usize, i: int)
    requires
        0 <= n <= body.blocks@.len(),
        0 <= i < assigned_in(body, n, local).len(),
    ensures
        exists|b: int, j: int| #[trigger]
            assigns_at(body, b, j, local) && assigned_at(body, b, j) == assigned_in(
                body,
                n,
                local,
            )[i],
    decreases n,
{
    if n > 0 {
        let before = assigned_in(body, n - 1, local).len() as int;
        if i < before {
            lemma_some_block(body, n - 1, local, i);
            let (b, j) = choose|b: int, j: int| #[trigger]
                assigns_at(body, b, j, local) && assigned_at(body, b, j) == assigned_in(
                    body,
                    n - 1,
                    local,
                )[i];
            assert(assigns_at(body, b, j, local));
        } else {
            let m = body.blocks@[n - 1].statements@.len() as int;
            lemma_some_statement(body, n - 1, m, local, i - before);
            let j = choose|j: int| #[trigger]
                assigns_at(body, n - 1, j, local) && assigned_at(body, n - 1, j) == assigned_by(
                    body.blocks@[n - 1].statements@,
                    m,
                    local,
                )[i - before];
            assert(assigns_at(body, n - 1, j, local));
        }
    }
}

/// Every definition of a local is an assignment to it.
pub proof fn definitions_come_from_assignments(body: Body, local: usize, i: int)
    requires
        0 <= i < assigned_to(body, local).len(),
    ensures
        exists|b: int, j: int| #[trigger]
            assigns_at(body, b, j, local) && assigned_at(body, b, j) == assigned_to(body, local)[i],
{
    lemma_some_block(body, body.blocks@.len() as int, local, i);
}

/// The assignment moves the value out of a local.
pub open spec fn moves_from(r: Rvalue, from: usize) -> bool {
    r matches Rvalue::Use(Operand::Move(p, _)) && p.local == from
}

/// The assignment copies or moves the value of a local.
pub open spec fn reads_from(r: Rvalue, from: usize) -> bool {
    match r {
        Rvalue::Use(Operand::Copy(p, _)) => p.local == from,
        Rvalue::Use(Operand::Move(p, _)) => p.local == from,
        _ => false,
    }
}

/// Assignment `i` moves from `m`, and no other one moves anything.
pub open spec fn is_only_move(q: Seq<Rvalue>, i: int, m: usize) -> bool {
    &&& 0 <= i < q.len()
    &&& moves_from(q[i], m)
    &&& forall|j: int, n: usize| 0 <= j < q.len() && #[trigger] moves_from(q[j], n) ==> j == i
}

/// Assignment `i` reads from `m`, and no other one reads anything.
pub open spec fn is_only_read(q: Seq<Rvalue>, i: int, m: usize) -> bool {
    &&& 0 <= i < q.len()
    &&& reads_from(q[i], m)
    &&& forall|j: int, n: usize| 0 <= j < q.len() && #[trigger] reads_from(q[j], n) ==> j == i
}

proof fn lemma_moves(q: Seq<Rvalue>, m: usize)
    ensures
        moves(q) is Zero <==> forall|j: int, n: usize|
            0 <= j < q.len() ==> !#[trigger] moves_from(q[j], n),
        moves(q) == Tally::One(m) <==> exists|i: int| #[trigger] is_only_move(q, i, m),
    decreases q.len(),
{
    if q.len() > 0 {
        let r = q.drop_last();
        let last = q.len() - 1;
        lemma_moves(r, m);
        let from = match q.last() {
            Rvalue::Use(Operand::Move(p, _)) => Some(p.local),
            _ => None,
        };
        if from is Some {
            assert(moves_from(q[last], from->0));
        }
        assert(moves(q) == Tally::One(m) <==> exists|i: int| #[trigger] is_only_move(q, i, m)) by {
            if moves(q) == Tally::One(m) {
                if from is None {
                    let i = choose|i: int| #[trigger] is_only_move(r, i, m);
                    assert forall|j: int, n: usize|
                        0 <= j < q.len() && #[trigger] moves_from(q[j], n) implies j == i by {
                        if j < last {
                            assert(moves_from(r[j], n));
                        }
                    }
                    assert(is_only_move(q, i, m));
                } else {
                    assert forall|j: int, n: usize|
                        0 <= j < q.len() && #[trigger] moves_from(q[j], n) implies j == last by {
                        if j < last {
                            assert(moves_from(r[j], n));
                        }
                    }
                    assert(is_only_move(q, last, m));
                }
            }
            if exists|i: int| #[trigger] is_only_move(q, i, m) {
                let i = choose|i: int| #[trigger] is_only_move(q, i, m);
                if from is Some {
                    assert(moves_from(q[last], from->0));
                    assert(i == last);
                    assert(forall|j: int, n: usize|
                        0 <= j < r.len() ==> !#[trigger] moves_from(r[j], n)) by {
                        assert forall|j: int, n: usize|
                            0 <= j < r.len() implies !#[trigger] moves_from(r[j], n) by {
                            if moves_from(r[j], n) {
                                assert(moves_from(q[j], n));
                            }
                        }
                    }
                } else {
                    assert(i < last);
                    assert forall|j: int, n: usize|
                        0 <= j < r.len() && #[trigger] moves_from(r[j], n) implies j == i by {
                        assert(moves_from(q[j], n));
                    }
                    assert(moves_from(r[i], m));
                    assert(is_only_move(r, i, m));
                }
            }
        }
        if moves(q) is Zero {
            assert forall|j: int, n: usize| 0 <= j < q.len() implies !#[trigger] moves_from(
                q[j],
                n,
            ) by {
                if j < last {
                    assert(!moves_from(r[j], n));
                }
            }
        } else if from is None {
            assert(!(moves(r) is Zero));
            let (j, n) = choose|j: int, n: usize|
                0 <= j < r.len() && #[trigger] moves_from(r[j], n);
            assert(moves_from(q[j], n));
        }
    }
}

/// A value was moved out of `m` exactly if one assignment moves it from there and
/// no other one moves anything.
pub proof fn single_moves_are_followed(body: Body, local: usize, m: usize)
    ensures
        moves(assigned_to(body, local)) == Tally::One(m) <==> exists|i: int| #[trigger]
            is_only_move(assigned_to(body, local), i, m),
{
    lemma_moves(assigned_to(body, local), m);
}

proof fn lemma_reads(q: Seq<Rvalue>, m: usize)
    ensures
        reads(q) is Zero <==> forall|j: int, n: usize|
            0 <= j < q.len() ==> !#[trigger] reads_from(q[j], n),
        reads(q) == Tally::One(m) <==> exists|i: int| #[trigger] is_only_read(q, i, m),
    decreases q.len(),
{
    if q.len() > 0 {
        let r = q.drop_last();
        let last = q.len() - 1;
        lemma_reads(r, m);
        let from = match q.last() {
            Rvalue::Use(o) => match place_of(o) {
                Some(p) => Some(p.local),
                None => None,
            },
            _ => None,
        };
        if from is Some {
            assert(reads_from(q[last], from->0));
        }
        assert(reads(q) == Tally::One(m) <==> exists|i: int| #[trigger] is_only_read(q, i, m)) by {
            if reads(q) == Tally::One(m) {
                if from is None {
                    let i = choose|i: int| #[trigger] is_only_read(r, i, m);
                    assert forall|j: int, n: usize|
                        0 <= j < q.len() && #[trigger] reads_from(q[j], n) implies j == i by {
                        if j < last {
                            assert(reads_from(r[j], n));
                        }
                    }
                    assert(is_only_read(q, i, m));
                } else {
                    assert forall|j: int, n: usize|
                        0 <= j < q.len() && #[trigger] reads_from(q[j], n) implies j == last by {
                        if j < last {
                            assert(reads_from(r[j], n));
                        }
                    }
                    assert(is_only_read(q, last, m));
                }
            }
            if exists|i: int| #[trigger] is_only_read(q, i, m) {
                let i = choose|i: int| #[trigger] is_only_read(q, i, m);
                if from is Some {
                    assert(reads_from(q[last], from->0));
                    assert(i == last);
                    assert(forall|j: int, n: usize|
                        0 <= j < r.len() ==> !#[trigger] reads_from(r[j], n)) by {
                        assert forall|j: int, n: usize|
                            0 <= j < r.len() implies !#[trigger] reads_from(r[j], n) by {
                            if reads_from(r[j], n) {
                                assert(reads_from(q[j], n));
                            }
                        }
                    }
                } else {
                    assert(i < last);
                    assert forall|j: int, n: usize|
                        0 <= j < r.len() && #[trigger] reads_from(r[j], n) implies j == i by {
                        assert(reads_from(q[j], n));
                    }
                    assert(reads_from(r[i], m));
                    assert(is_only_read(r, i, m));
                }
            }
        }
        if reads(q) is Zero {
            assert forall|j: int, n: usize| 0 <= j < q.len() implies !#[trigger] reads_from(
                q[j],
                n,
            ) by {
                if j < last {
                    assert(!reads_from(r[j], n));
                }
            }
        } else if from is None {
            assert(!(reads(r) is Zero));
            let (j, n) = choose|j: int, n: usize|
                0 <= j < r.len() && #[trigger] reads_from(r[j], n);
            assert(reads_from(q[j], n));
        }
    }
}

/// A value was read from `m` exactly if one assignment copies or moves it from
/// there and no other one copies or moves anything.
pub proof fn single_reads_are_followed(body: Body, local: usize, m: usize)
    ensures
        reads(assigned_to(body, local)) == Tally::One(m) <==> exists|i: int| #[trigger]
            is_only_read(assigned_to(body, local), i, m),
{
    lemma_reads(assigned_to(body, local), m);
}

/// The local that the value in `l` was read from, `n` reads back.
pub open spec fn read_back(body: Body, l: usize, n: nat) -> Option<usize>
    decreases n,
{
    if n == 0 {
        Some(l)
    } else {
        match reads(assigned_to(body, l)) {
            Tally::One(from) => read_back(body, from, (n - 1) as nat),
            _ => None,
        }
    }
}

/// The value in `l` was read from the parameter `p`, `n` reads back, and from no
/// other parameter on the way.
pub open spec fn is_read_from(body: Body, l: usize, n: nat, p: usize) -> bool {
    &&& read_back(body, l, n) == Some(p)
    &&& 1 <= p <= body.arg_count
    &&& forall|i: nat|
        i < n ==> !(1 <= (#[trigger] read_back(body, l, i))->0 <= body.arg_count)
}

/// A callable is traced to the parameter that it was read from, through fewer
/// reads than are followed.
pub proof fn callables_are_traced_to_parameters(body: Body, l: usize, hops: nat, p: usize)
    ensures
        param_of(body, l, hops) == Some(p) <==> exists|n: nat|
            n < hops && #[trigger] is_read_from(body, l, n, p),
    decreases hops,
{
    if hops > 0 {
        if is_param(body, l) {
            if p == l {
                assert(is_read_from(body, l, 0, p));
            }
            if exists|n: nat| n < hops && #[trigger] is_read_from(body, l, n, p) {
                let n = choose|n: nat| n < hops && #[trigger] is_read_from(body, l, n, p);
                if n > 0 {
                    assert(read_back(body, l, 0) == Some(l));
                }
            }
        } else {
            match reads(assigned_to(body, l)) {
                Tally::One(from) => {
                    let less = (hops - 1) as nat;
                    callables_are_traced_to_parameters(body, from, less, p);
                    if exists|n: nat| n < less && #[trigger] is_read_from(body, from, n, p) {
                        let n = choose|n: nat| n < less && #[trigger] is_read_from(body, from, n, p);
                        assert forall|i: nat| i < n + 1 implies !(1 <= (#[trigger] read_back(
                            body,
                            l,
                            i,
                        ))->0 <= body.arg_count) by {
                            if i > 0 {
                                assert(read_back(body, l, i) == read_back(
                                    body,
                                    from,
                                    (i - 1) as nat,
                                ));
                            }
                        }
                        assert(read_back(body, l, n + 1) == read_back(body, from, n));
                        assert(is_read_from(body, l, n + 1, p));
                    }
                    if exists|n: nat| n < hops && #[trigger] is_read_from(body, l, n, p) {
                        let n = choose|n: nat| n < hops && #[trigger] is_read_from(body, l, n, p);
                        assert(n > 0);
                        let m = (n - 1) as nat;
                        assert(read_back(body, l, n) == read_back(body, from, m));
                        assert forall|i: nat| i < m implies !(1 <= (#[trigger] read_back(
                            body,
                            from,
                            i,
                        ))->0 <= body.arg_count) by {
                            assert(read_back(body, l, i + 1) == read_back(body, from, i));
                        }
                        assert(is_read_from(body, from, m, p));
                    }
                },
                _ => {
                    if exists|n: nat| n < hops && #[trigger] is_read_from(body, l, n, p) {
                        let n = choose|n: nat| n < hops && #[trigger] is_read_from(body, l, n, p);
                        assert(n > 0 ==> read_back(body, l, n) is None);
                    }
                },
            }
        }
    }
}

/// A copy of a reference is seen through: what is reached through `_t = SRC` is
/// what is reached through SRC.
pub proof fn copies_are_seen_through(
    body: Body,
    t: usize,
    src: Place,
    ty: Ty,
    rest: Seq<Elem>,
    hops: nat,
)
    requires
        !is_param(body, t),
        !is_result(body, t),
        body.locals@[t as int].kind is Ref,
        assigned_to(body, t) == seq![Rvalue::Use(Operand::Copy(src, ty))] || assigned_to(body, t)
            == seq![Rvalue::Use(Operand::Move(src, ty))],
    ensures
        root_of(body, PathV { local: t, proj: rest }, hops + 1) == root_of(
            body,
            PathV { local: src.local, proj: src.proj@ + rest },
            hops,
        ),
{
    assert(copied_from(body, t) == Some(src));
}

/// A parameter is its own root: what is reached through it is shown by its type.
pub proof fn parameters_are_roots(body: Body, p: PathV, hops: nat)
    requires
        is_param(body, p.local),
    ensures
        root_of(body, p, hops) == p,
{
}

/// A lock that is a static is known by the name of the static, alike whether the
/// operand is the constant itself or a local that holds the address.
pub proof fn statics_are_known_by_name(
    cr: CrateV,
    body: Body,
    l: usize,
    item: String,
    ty: Ty,
    operand: Operand,
)
    requires
        !is_param(body, l),
        !is_result(body, l),
        assigned_to(body, l) == seq![
            Rvalue::Use(Operand::Const { ty, item: Some(item) }),
        ],
        match operand {
            Operand::Copy(p, _) => p.local == l && p.proj@.len() == 0,
            Operand::Move(p, _) => p.local == l && p.proj@.len() == 0,
            Operand::Const { ty: _, item: path } => path == Some(item),
        },
    ensures
        lock_of(cr, body, operand).class == item@,
        lock_of(cr, body, operand).id == item@,
        lock_of(cr, body, operand).reason is None,
{
    let p = PathV { local: l, proj: Seq::<Elem>::empty().push(Elem::Deref) };
    assert(assigned_to(body, l)[0] == Rvalue::Use(Operand::Const { ty, item: Some(item) }));
    assert(static_of(body, l) == Some(item@));
    assert(step_back(body, p) is None);
    assert(root_of(body, p, 8) == p);
    assert(defining_calls(body, body.blocks@.len() as int, l) is Zero);
    assert(lock_by_call(cr, body, p) is None);
    assert(p.proj.skip(1).len() == 0);
    match operand {
        Operand::Copy(q, _) => {
            assert(q.proj@ =~= Seq::<Elem>::empty());
            assert(referent_of(q) == p);
        },
        Operand::Move(q, _) => {
            assert(q.proj@ =~= Seq::<Elem>::empty());
            assert(referent_of(q) == p);
        },
        _ => {},
    }
}

/// A lock in a field is known by the type that it is reached from, the name of
/// the field and its type: the class is one in every body and for every local of
/// that type, and the identity tells the locals apart.
pub proof fn fields_are_known_by_type_and_name(
    body: Body,
    local: usize,
    index: usize,
    fty: Ty,
    fields: Vec<String>,
)
    requires
        static_of(body, local) is None,
        index < fields@.len(),
        body.locals@[local as int].kind is Ref,
        (body.locals@[local as int].kind->Ref_0).kind matches TyKind::Adt { path, args, fields: fs }
            && fs == Some(fields),
    ensures
        ({
            let ty = body.locals@[local as int];
            let p = PathV { local, proj: seq![Elem::Deref, Elem::Field { index, ty: fty }] };
            let s = shown_path(body, p);
            &&& s.sym == erased(ty.text@) + ".*"@ + "."@ + fields@[index as int]@ + ":"@ + erased(
                fty.text@,
            )
            &&& s.id == erased(ty.text@) + "#"@ + dec(local as nat) + "."@
                + fields@[index as int]@
        }),
{
    let ty = body.locals@[local as int];
    let q = seq![Elem::Deref, Elem::Field { index, ty: fty }];
    let start = ShownV {
        sym: erased(ty.text@),
        id: erased(ty.text@) + "#"@ + dec(local as nat),
        ty,
    };
    assert(shown_from(start, q, 0) == start);
    let one = show_elem(start, q[0]);
    assert(shown_from(start, q, 1) == one);
    assert(shown_from(start, q, 2) == show_elem(one, q[1]));
}

/// The calls that give a local its value: there is none, there is the one block,
/// or there are several.
pub proof fn results_are_those_of_the_calls(body: Body, n: int, local: usize)
    requires
        0 <= n <= body.blocks@.len(),
    ensures
        match defining_calls(body, n, local) {
            Tally::Zero => forall|b: int|
                0 <= b < n ==> !is_returned_into(#[trigger] body.blocks@[b].terminator.kind, local),
            Tally::One(c) => 0 <= c < n && forall|b: int|
                0 <= b < n ==> (is_returned_into(
                    #[trigger] body.blocks@[b].terminator.kind,
                    local,
                ) <==> b == c),
            Tally::Many => exists|b: int, c: int|
                0 <= b < c < n && is_returned_into(
                    #[trigger] body.blocks@[b].terminator.kind,
                    local,
                ) && is_returned_into(#[trigger] body.blocks@[c].terminator.kind, local),
        },
    decreases n,
{
    if n > 0 {
        results_are_those_of_the_calls(body, n - 1, local);
        let last = body.blocks@[n - 1].terminator.kind;
        if is_returned_into(last, local) {
            match defining_calls(body, n - 1, local) {
                Tally::One(c) => {
                    assert(is_returned_into(body.blocks@[c].terminator.kind, local));
                    assert(is_returned_into(body.blocks@[n - 1].terminator.kind, local));
                },
                _ => {},
            }
        }
    }
}

/// A call that returns into the whole of the local.
pub open spec fn is_returned_into(t: TermKind, local: usize) -> bool {
    t matches TermKind::Call { callee, args, dest } && dest.local == local && dest.proj@.len() == 0
}

/// A function counts as an accessor only for a parameter that keeps the value it
/// was called with: nothing is assigned to it, and no call returns into it.
pub proof fn accessors_keep_their_parameter(body: Body, b: int, j: int)
    requires
        accessor_of(body) is Some,
        0 <= b < body.blocks@.len(),
    ensures
        1 <= (accessor_of(body)->0).param <= body.arg_count,
        !assigns_at(body, b, j, (accessor_of(body)->0).param),
        !is_returned_into(body.blocks@[b].terminator.kind, (accessor_of(body)->0).param),
{
    let l = (accessor_of(body)->0).param;
    results_are_those_of_the_calls(body, body.blocks@.len() as int, l);
    if assigns_at(body, b, j, l) {
        lemma_listed(body, b, j, l);
    }
}

/// A function that returns a borrow of a field of what a parameter refers to is
/// an accessor of that field.
pub proof fn field_borrows_are_accessors(
    body: Body,
    src: Place,
    index: usize,
    fty: Ty,
    fields: Vec<String>,
)
    requires
        assigned_to(body, 0) == seq![Rvalue::Ref(src)],
        !is_result(body, 0),
        is_param(body, src.local),
        is_untouched(body, src.local),
        src.proj@ == seq![Elem::Deref, Elem::Field { index, ty: fty }],
        index < fields@.len(),
        body.locals@[src.local as int].kind is Ref,
        (body.locals@[src.local as int].kind->Ref_0).kind matches TyKind::Adt {
            path,
            args,
            fields: fs,
        } && fs == Some(fields),
    ensures
        ({
            let name = "."@ + fields@[index as int]@;
            &&& accessor_of(body) is Some
            &&& (accessor_of(body)->0).param == src.local
            &&& (accessor_of(body)->0).part == name + ":"@ + erased(fty.text@)
            &&& (accessor_of(body)->0).id == name
        }),
{
    let from = PathV { local: src.local, proj: src.proj@ + returned_path().proj.skip(1) };
    assert(from.proj =~= src.proj@);
    assert(assigned_to(body, 0)[0] == Rvalue::Ref(src));
    assert(step_back(body, returned_path()) == Some(from));
    assert(root_of(body, returned_path(), 8) == root_of(body, from, 7));
    assert(root_of(body, from, 7) == from);
    let q = from.proj.skip(1);
    assert(q =~= seq![Elem::Field { index, ty: fty }]);
    let ty = referred(body.locals@[src.local as int]);
    let start = ShownV { sym: Seq::empty(), id: Seq::empty(), ty };
    assert(shown_from(start, q, 0) == start);
    assert(shown_from(start, q, 1) == show_elem(start, q[0]));
    let name = fields@[index as int]@;
    assert(Seq::<char>::empty() + "."@ =~= "."@);
}

/// The paths of accessors: a path stands for an accessor exactly if there is a
/// body of that path, and all bodies of the path are that same accessor, and none
/// of them is a closure.
pub proof fn paths_stand_for_one_accessor(bodies: Seq<Body>, p: Name)
    ensures
        crate_of(bodies).accessors.contains_key(p) <==> exists|a: AccessorV| #[trigger]
            all_are(bodies, p, a),
        forall|a: AccessorV| #[trigger]
            all_are(bodies, p, a) ==> crate_of(bodies).accessors[p] == a,
{
    let n = bodies.len() as int;
    lemma_accessors(bodies, n, p);
    let m = accessors_in(bodies, n);
    if m.contains_key(p) {
        let i = choose|i: int|
            0 <= i < n && (#[trigger] bodies[i]).path@ == p && summary_of(bodies[i]) is Some
                && is_unambiguous(bodies, i);
        let a = summary_of(bodies[i])->0;
        assert forall|j: int| 0 <= j < bodies.len() && (#[trigger] bodies[j]).path@
            == p implies !bodies[j].is_closure && accessor_of(bodies[j]) == Some(a) by {
            assert(summary_of(bodies[j]) == summary_of(bodies[i]));
        }
        assert(all_are(bodies, p, a));
    }
    assert forall|a: AccessorV| #[trigger] all_are(bodies, p, a) implies m.contains_key(p) && m[p]
        == a by {
        let i = choose|i: int| 0 <= i < bodies.len() && (#[trigger] bodies[i]).path@ == p;
        assert(summary_of(bodies[i]) == Some(a));
        assert(is_unambiguous(bodies, i));
    }
}

/// There is a body of the path, and every one is the accessor `a`.
pub open spec fn all_are(bodies: Seq<Body>, p: Name, a: AccessorV) -> bool {
    &&& exists|i: int| 0 <= i < bodies.len() && (#[trigger] bodies[i]).path@ == p
    &&& forall|i: int|
        0 <= i < bodies.len() && (#[trigger] bodies[i]).path@ == p ==> !bodies[i].is_closure
            && accessor_of(bodies[i]) == Some(a)
}

proof fn lemma_accessors(bodies: Seq<Body>, n: int, p: Name)
    requires
        0 <= n <= bodies.len(),
    ensures
        accessors_in(bodies, n).contains_key(p) <==> exists|i: int|
            0 <= i < n && (#[trigger] bodies[i]).path@ == p && summary_of(bodies[i]) is Some
                && is_unambiguous(bodies, i),
        forall|i: int|
            0 <= i < n && (#[trigger] bodies[i]).path@ == p && summary_of(bodies[i]) is Some
                && is_unambiguous(bodies, i) ==> accessors_in(bodies, n)[p] == summary_of(
                bodies[i],
            )->0,
    decreases n,
{
    if n > 0 {
        lemma_accessors(bodies, n - 1, p);
        let last = bodies[n - 1];
        if last.path@ == p && summary_of(last) is Some && is_unambiguous(bodies, n - 1) {
            assert forall|i: int|
                0 <= i < n && (#[trigger] bodies[i]).path@ == p && summary_of(bodies[i]) is Some
                    && is_unambiguous(bodies, i) implies accessors_in(bodies, n)[p] == summary_of(
                bodies[i],
            )->0 by {
                assert(summary_of(bodies[i]) == summary_of(bodies[n - 1]));
            }
        }
    }
}

/// The kind of a guard is that of the guard type that its path names; a path that
/// names a mutex guard is one whatever else it names.
pub proof fn guards_are_of_the_kind_they_name(ty: Ty)
    requires
        guard_of(ty) is Some,
    ensures
        ({
            let path = ty.kind->path@;
            let kind = (guard_of(ty)->0).kind;
            &&& mentions(path, "MutexGuard"@) ==> kind == "Mutex"@
            &&& !mentions(path, "MutexGuard"@) && mentions(path, "RwLockReadGuard"@) ==> kind
                == "RwRead"@
            &&& !mentions(path, "MutexGuard"@) && !mentions(path, "RwLockReadGuard"@) ==> kind
                == "RwWrite"@
        }),
{
    let path = ty.kind->path@;
    lemma_mentions(path, "MutexGuard"@);
    lemma_mentions(path, "RwLockReadGuard"@);
}

/// A lock in a field of what a parameter refers to, taken through a borrow of the
/// field, is known by the type of the parameter, the name of the field and its
/// type; the identity names the parameter. Nothing is reported.
pub proof fn borrowed_fields_are_known(
    cr: CrateV,
    body: Body,
    t: Place,
    src: Place,
    index: usize,
    fty: Ty,
    fields: Vec<String>,
    operand: Operand,
)
    requires
        place_of(operand) == Some(t),
        t.proj@.len() == 0,
        !is_param(body, t.local),
        !is_result(body, t.local),
        assigned_to(body, t.local) == seq![Rvalue::Ref(src)],
        is_param(body, src.local),
        is_untouched(body, src.local),
        src.proj@ == seq![Elem::Deref, Elem::Field { index, ty: fty }],
        index < fields@.len(),
        body.locals@[src.local as int].kind is Ref,
        (body.locals@[src.local as int].kind->Ref_0).kind matches TyKind::Adt {
            path,
            args,
            fields: fs,
        } && fs == Some(fields),
    ensures
        ({
            let ty = body.locals@[src.local as int];
            let lock = lock_of(cr, body, operand);
            &&& lock.class == erased(ty.text@) + ".*"@ + "."@ + fields@[index as int]@ + ":"@
                + erased(fty.text@)
            &&& lock.id == erased(ty.text@) + "#"@ + dec(src.local as nat) + "."@
                + fields@[index as int]@
            &&& lock.reason is None
        }),
{
    let from = referent_of(t);
    let q = PathV { local: src.local, proj: src.proj@ + from.proj.skip(1) };
    assert(from.proj =~= seq![Elem::Deref]);
    assert(q.proj =~= src.proj@);
    assert(assigned_to(body, t.local)[0] == Rvalue::Ref(src));
    assert(step_back(body, from) == Some(q));
    assert(root_of(body, from, 8) == root_of(body, q, 7));
    assert(root_of(body, q, 7) == q);
    assert(q == PathV {
        local: src.local,
        proj: seq![Elem::Deref, Elem::Field { index, ty: fty }],
    });
    assert(static_of(body, src.local) is None);
    fields_are_known_by_type_and_name(body, src.local, index, fty, fields);
    assert(!is_referent(q));
    assert(defined_by(body, src.local) is None);
}

/// The place `n` definitions back.
pub open spec fn steps_back(body: Body, p: PathV, n: nat) -> Option<PathV>
    decreases n,
{
    if n == 0 {
        Some(p)
    } else {
        match step_back(body, p) {
            Some(q) => steps_back(body, q, (n - 1) as nat),
            None => None,
        }
    }
}

/// A place is followed back through its definitions as far as they go, and at
/// most as far as is asked for.
pub proof fn roots_are_followed_to_the_end(body: Body, p: PathV, hops: nat)
    ensures
        exists|n: nat|
            n <= hops && #[trigger] steps_back(body, p, n) == Some(root_of(body, p, hops)) && (n
                == hops || step_back(body, root_of(body, p, hops)) is None),
    decreases hops,
{
    match step_back(body, p) {
        Some(q) => {
            if hops > 0 {
                let less = (hops - 1) as nat;
                roots_are_followed_to_the_end(body, q, less);
                let n = choose|n: nat|
                    n <= less && #[trigger] steps_back(body, q, n) == Some(root_of(body, q, less))
                        && (n == less || step_back(body, root_of(body, q, less)) is None);
                assert(steps_back(body, p, n + 1) == steps_back(body, q, n));
            } else {
                assert(steps_back(body, p, 0) == Some(p));
            }
        },
        None => {
            assert(steps_back(body, p, 0) == Some(p));
        },
    }
}

/// The operand reads a local of the body, or none.
pub open spec fn reads_local(o: Operand, n: nat) -> bool {
    place_of(o) is Some ==> (place_of(o)->0).local < n
}

/// A body is valid exactly if every local and every block that it names is one of
/// its own, and all its parameters are locals.
pub proof fn bodies_are_valid_iff_their_names_are_theirs(body: Body)
    ensures
        body.wf() <==> {
            let n = body.locals@.len();
            &&& body.arg_count < n
            &&& forall|b: int, j: int|
                0 <= b < body.blocks@.len() && 0 <= j < body.blocks@[b].statements@.len()
                    ==> match #[trigger] body.blocks@[b].statements@[j] {
                    Statement::Assign(dest, r) => dest.local < n && match r {
                        Rvalue::Use(o) => reads_local(o, n),
                        Rvalue::Ref(p) => p.local < n,
                        Rvalue::Other => true,
                    },
                    Statement::StorageDead(l) => l < n,
                    Statement::Other => true,
                }
            &&& forall|b: int|
                0 <= b < body.blocks@.len() ==> match #[trigger] body.blocks@[b].terminator.kind {
                    TermKind::Call { callee, args, dest } => dest.local < n && forall|i: int|
                        0 <= i < args@.len() ==> reads_local(#[trigger] args@[i], n),
                    TermKind::Drop(p) => p.local < n,
                    TermKind::Other => true,
                }
            &&& forall|b: int, i: int|
                0 <= b < body.blocks@.len() && 0 <= i < body.blocks@[b].terminator.next@.len() ==> (
                #[trigger] body.blocks@[b].terminator.next@[i]) < body.blocks@.len()
        },
{
    let n = body.locals@.len();
    let m = body.blocks@.len();
    if body.wf() {
        assert forall|b: int, j: int|
            0 <= b < m && 0 <= j < body.blocks@[b].statements@.len() implies statement_in(
            #[trigger] body.blocks@[b].statements@[j],
            n,
        ) by {
            assert(block_in(body.blocks@[b], n, m));
        }
        assert forall|b: int| 0 <= b < m implies terminator_in(
            (#[trigger] body.blocks@[b]).terminator,
            n,
            m,
        ) by {
            assert(block_in(body.blocks@[b], n, m));
        }
        assert forall|b: int| 0 <= b < m implies match #[trigger] body.blocks@[b].terminator.kind {
            TermKind::Call { callee, args, dest } => dest.local < n && forall|i: int|
                0 <= i < args@.len() ==> reads_local(#[trigger] args@[i], n),
            TermKind::Drop(p) => p.local < n,
            TermKind::Other => true,
        } by {
            assert(terminator_in(body.blocks@[b].terminator, n, m));
            if let TermKind::Call { callee, args, dest } = body.blocks@[b].terminator.kind {
                assert forall|i: int| 0 <= i < args@.len() implies reads_local(
                    #[trigger] args@[i],
                    n,
                ) by {
                    assert(operand_in(args@[i], n));
                }
            }
        }
    } else if body.arg_count < n {
        let b = choose|b: int| 0 <= b < m && !block_in(#[trigger] body.blocks@[b], n, m);
        let x = body.blocks@[b];
        if exists|j: int|
            0 <= j < x.statements@.len() && !statement_in(#[trigger] x.statements@[j], n) {
            let j = choose|j: int|
                0 <= j < x.statements@.len() && !statement_in(#[trigger] x.statements@[j], n);
            assert(!statement_in(body.blocks@[b].statements@[j], n));
        } else {
            assert(!terminator_in(x.terminator, n, m));
            if exists|i: int|
                0 <= i < x.terminator.next@.len() && !((#[trigger] x.terminator.next@[i]) < m) {
                let i = choose|i: int|
                    0 <= i < x.terminator.next@.len() && !((#[trigger] x.terminator.next@[i]) < m);
                assert(body.blocks@[b].terminator.next@[i] >= m);
            } else {
                assert(body.blocks@[b].terminator.kind == x.terminator.kind);
                if let TermKind::Call { callee, args, dest } = x.terminator.kind {
                    if dest.local < n {
                        let i = choose|i: int|
                            0 <= i < args@.len() && !operand_in(#[trigger] args@[i], n);
                        assert(!reads_local(args@[i], n));
                    }
                }
            }
        }
    }
}

}
