//! Which lock it is: the class of a guard and of a lock's receiver.
//!
//! A class is the path by which a lock is reached: the static it lives in, or
//! the type of the local it starts from, and the fields from there on. Giving
//! two locks one class is safe; giving one lock two classes is not, because a
//! class that nothing else mentions can never close a cycle. So type arguments
//! are left out, borrows and accessors are seen through, and a route that cannot
//! be seen through makes the analysis incomplete.

use vstd::prelude::*;

use crate::lint::mir::{
    assigned_by, assigned_in, assigned_to, assignments, block_in, operand_in, operand_ty, place_in,
    place_of, referents, rvalue_in, statement_in, Block, Body, Callee, Elem, Operand, Place, Rvalue,
    Statement, TermKind, Ty, TyKind,
};
use crate::lint::paths::{
    contains, derefs, erase_args, erased, has_part, has_prefix, is_deref_call, is_named, is_pointer,
    named, points, starts_with, stripped,
};
use crate::model::opt_name;
use crate::namemap::NameMap;
use crate::ordset::NameSet;
use crate::text::{dec, push_dec, Name};

verus! {

/// The kind of a guard and the type of what it protects.
pub struct Guard {
    pub kind: String,
    pub data: String,
}

/// The mathematical value of a [`Guard`].
pub struct GuardV {
    pub kind: Name,
    pub data: Name,
}

impl View for Guard {
    type V = GuardV;

    open spec fn view(&self) -> GuardV {
        GuardV { kind: self.kind@, data: self.data@ }
    }
}

/// A path that belongs to an asynchronous or model-checking library.
pub open spec fn is_unsupported(path: Name) -> bool {
    has_part(path, "async"@) || has_part(path, "tokio"@) || has_part(path, "future"@) || has_part(
        path,
        "loom"@,
    )
}

/// The kind of guard that a path names.
pub open spec fn guard_kind(path: Name) -> Option<Name> {
    if has_part(path, "MutexGuard"@) {
        Some("Mutex"@)
    } else if has_part(path, "RwLockReadGuard"@) {
        Some("RwRead"@)
    } else if has_part(path, "RwLockWriteGuard"@) {
        Some("RwWrite"@)
    } else {
        None
    }
}

/// The position of the protected type among the type arguments: the second for
/// `parking_lot` and `lock_api`, the first for every other library.
pub open spec fn data_arg(path: Name) -> int {
    if has_prefix(path, "parking_lot"@) || has_prefix(path, "lock_api"@) {
        1
    } else {
        0
    }
}

/// The guard that a type is.
pub open spec fn guard_of(ty: Ty) -> Option<GuardV> {
    match ty.kind {
        TyKind::Adt { path, args, fields } => if is_unsupported(path@) {
            None
        } else {
            match guard_kind(path@) {
                None => None,
                Some(kind) => Some(
                    GuardV {
                        kind,
                        data: if data_arg(path@) < args@.len() {
                            args@[data_arg(path@)]@
                        } else {
                            "_"@
                        },
                    },
                ),
            }
        },
        _ => None,
    }
}

/// Classifies a type as a lock guard, by its path.
pub fn guard_class_of_ty(ty: &Ty) -> (r: Option<Guard>)
    ensures
        match r {
            Some(g) => guard_of(*ty) == Some(g@),
            None => guard_of(*ty) is None,
        },
{
    match &ty.kind {
        TyKind::Adt { path, args, fields: _ } => {
            let p = path.as_str();
            if contains(p, "async") || contains(p, "tokio") || contains(p, "future") || contains(
                p,
                "loom",
            ) {
                return None;
            }
            let kind = if contains(p, "MutexGuard") {
                "Mutex".to_string()
            } else if contains(p, "RwLockReadGuard") {
                "RwRead".to_string()
            } else if contains(p, "RwLockWriteGuard") {
                "RwWrite".to_string()
            } else {
                return None;
            };
            let i: usize = if starts_with(p, "parking_lot") || starts_with(p, "lock_api") {
                1
            } else {
                0
            };
            let data = if i < args.len() {
                args[i].clone()
            } else {
                "_".to_string()
            };
            Some(Guard { kind, data })
        },
        _ => None,
    }
}

/// How many there are, and which it is if there is one.
pub enum Tally<T> {
    Zero,
    One(T),
    Many,
}

/// One more.
pub open spec fn tally_with<T>(t: Tally<T>, x: Option<T>) -> Tally<T> {
    match x {
        None => t,
        Some(v) => match t {
            Tally::Zero => Tally::One(v),
            _ => Tally::Many,
        },
    }
}

/// The locals moved by the assignments.
pub open spec fn moves(q: Seq<Rvalue>) -> Tally<usize>
    decreases q.len(),
{
    if q.len() == 0 {
        Tally::Zero
    } else {
        tally_with(
            moves(q.drop_last()),
            match q.last() {
                Rvalue::Use(Operand::Move(p, _)) => Some(p.local),
                _ => None,
            },
        )
    }
}

/// The locals read by the assignments.
pub open spec fn reads(q: Seq<Rvalue>) -> Tally<usize>
    decreases q.len(),
{
    if q.len() == 0 {
        Tally::Zero
    } else {
        tally_with(
            reads(q.drop_last()),
            match q.last() {
                Rvalue::Use(o) => match place_of(o) {
                    Some(p) => Some(p.local),
                    None => None,
                },
                _ => None,
            },
        )
    }
}

/// The local has exactly one definition, and that is an assignment.
pub open spec fn assigned_once(body: Body, local: usize) -> bool {
    assigned_to(body, local).len() == 1 && !is_result(body, local)
}

/// The place that `local` borrows, if that borrow is its only definition.
pub open spec fn borrowed_by(body: Body, local: usize) -> Option<Place> {
    if assigned_once(body, local) {
        match assigned_to(body, local)[0] {
            Rvalue::Ref(p) => Some(p),
            _ => None,
        }
    } else {
        None
    }
}

/// The place that the reference `local` was copied or moved from, if that is its
/// only definition.
pub open spec fn copied_from(body: Body, local: usize) -> Option<Place> {
    if assigned_once(body, local) && body.locals@[local as int].kind is Ref {
        match assigned_to(body, local)[0] {
            Rvalue::Use(o) => place_of(o),
            _ => None,
        }
    } else {
        None
    }
}

/// The only definition of `local`, if that is an assignment.
fn sole_definition<'a>(body: &'a Body, local: usize) -> (r: Option<&'a Rvalue>)
    ensures
        match r {
            Some(x) => assigned_once(*body, local) && *x == assigned_to(*body, local)[0],
            None => !assigned_once(*body, local),
        },
{
    let all = assignments(body, local);
    assert(referents(all@).len() == all@.len());
    if all.len() != 1 || is_call_destination(body, local) {
        return None;
    }
    assert(referents(all@)[0] == *all@[0]);
    Some(all[0])
}

/// If a borrow is the only definition of `local`, the borrowed place. It sees
/// through the temporary that `Mutex::lock(move _temp)` takes.
pub fn sole_borrow_source<'a>(body: &'a Body, local: usize) -> (r: Option<&'a Place>)
    ensures
        match r {
            Some(p) => borrowed_by(*body, local) == Some(*p),
            None => borrowed_by(*body, local) is None,
        },
{
    match sole_definition(body, local) {
        Some(Rvalue::Ref(p)) => Some(p),
        _ => None,
    }
}

/// If the reference `local` is only ever a copy of one place, that place.
fn sole_copy_source<'a>(body: &'a Body, local: usize) -> (r: Option<&'a Place>)
    requires
        local < body.locals@.len(),
    ensures
        match r {
            Some(p) => copied_from(*body, local) == Some(*p),
            None => copied_from(*body, local) is None,
        },
{
    if !is_reference(&body.locals[local]) {
        return None;
    }
    match sole_definition(body, local) {
        Some(Rvalue::Use(o)) => o.place(),
        _ => None,
    }
}

/// Whether the type is that of a reference.
fn is_reference(ty: &Ty) -> (r: bool)
    ensures
        r == (ty.kind is Ref),
{
    match &ty.kind {
        TyKind::Ref(_) => true,
        _ => false,
    }
}

/// The local that `local` was moved out of: how many there are.
fn move_source(body: &Body, local: usize) -> (r: Tally<usize>)
    ensures
        r == moves(assigned_to(*body, local)),
{
    let all = assignments(body, local);
    let ghost q = referents(all@);
    let mut found: Tally<usize> = Tally::Zero;
    let mut i: usize = 0;
    assert(q.take(0) =~= Seq::empty());
    while i < all.len()
        invariant
            q == referents(all@),
            i <= all@.len(),
            found == moves(q.take(i as int)),
        decreases all@.len() - i,
    {
        assert(q.take(i + 1).drop_last() =~= q.take(i as int));
        assert(q.take(i + 1).last() == *all@[i as int]);
        match all[i] {
            Rvalue::Use(Operand::Move(p, _)) => {
                found = match found {
                    Tally::Zero => Tally::One(p.local),
                    _ => Tally::Many,
                };
            },
            _ => {},
        }
        i = i + 1;
    }
    assert(q.take(i as int) =~= q);
    found
}

/// The local that `local` was read from: how many there are.
fn read_source(body: &Body, local: usize) -> (r: Tally<usize>)
    ensures
        r == reads(assigned_to(*body, local)),
{
    let all = assignments(body, local);
    let ghost q = referents(all@);
    let mut found: Tally<usize> = Tally::Zero;
    let mut i: usize = 0;
    assert(q.take(0) =~= Seq::empty());
    while i < all.len()
        invariant
            q == referents(all@),
            i <= all@.len(),
            found == reads(q.take(i as int)),
        decreases all@.len() - i,
    {
        assert(q.take(i + 1).drop_last() =~= q.take(i as int));
        assert(q.take(i + 1).last() == *all@[i as int]);
        match all[i] {
            Rvalue::Use(o) => match o.place() {
                Some(p) => {
                    found = match found {
                        Tally::Zero => Tally::One(p.local),
                        _ => Tally::Many,
                    };
                },
                None => {},
            },
            _ => {},
        }
        i = i + 1;
    }
    assert(q.take(i as int) =~= q);
    found
}

/// The local is a parameter.
pub open spec fn is_param(body: Body, local: usize) -> bool {
    1 <= local <= body.arg_count
}

/// A place: a local and the steps from there.
pub struct PathV {
    pub local: usize,
    pub proj: Seq<Elem>,
}

/// The place itself.
pub open spec fn path_of(p: Place) -> PathV {
    PathV { local: p.local, proj: p.proj@ }
}

/// What the reference at the place refers to.
pub open spec fn referent_of(p: Place) -> PathV {
    PathV { local: p.local, proj: p.proj@.push(Elem::Deref) }
}

/// What the local refers to, as a whole.
pub open spec fn is_referent(p: PathV) -> bool {
    p.proj.len() == 1 && p.proj[0] is Deref
}

/// One definition back. The compiler freely inserts `_t = &SRC; ... (*_t).f`,
/// which is `SRC.f`, and copies references.
pub open spec fn step_back(body: Body, p: PathV) -> Option<PathV> {
    if is_param(body, p.local) {
        None
    } else if borrowed_by(body, p.local) is Some && p.proj.len() > 0 && p.proj[0] is Deref {
        let src = borrowed_by(body, p.local)->0;
        Some(PathV { local: src.local, proj: src.proj@ + p.proj.skip(1) })
    } else if copied_from(body, p.local) is Some {
        let src = copied_from(body, p.local)->0;
        Some(PathV { local: src.local, proj: src.proj@ + p.proj })
    } else {
        None
    }
}

/// The place that is actually meant, at most `hops` definitions away.
pub open spec fn root_of(body: Body, p: PathV, hops: nat) -> PathV
    decreases hops,
{
    match step_back(body, p) {
        Some(q) => if hops > 0 {
            root_of(body, q, (hops - 1) as nat)
        } else {
            p
        },
        None => p,
    }
}

/// How many definitions are followed.
pub const HOPS: usize = 8;

/// A place: a local, the steps from there, and whether a deref comes last.
pub struct Path<'a> {
    pub local: usize,
    pub proj: Vec<&'a Elem>,
    pub deref: bool,
}

impl<'a> Path<'a> {
    pub open spec fn value(&self) -> PathV {
        PathV {
            local: self.local,
            proj: if self.deref {
                referents(self.proj@).push(Elem::Deref)
            } else {
                referents(self.proj@)
            },
        }
    }

    /// The place itself.
    pub fn at(p: &'a Place) -> (r: Path<'a>)
        ensures
            r.value() == path_of(*p),
    {
        let none: Vec<&'a Elem> = Vec::new();
        assert(referents(none@) =~= Seq::empty());
        let proj = joined(&p.proj, &none, 0);
        assert(p.proj@ + referents(none@).skip(0) =~= p.proj@);
        Path { local: p.local, proj, deref: false }
    }

    /// What the reference at the place refers to.
    pub fn behind(p: &'a Place) -> (r: Path<'a>)
        ensures
            r.value() == referent_of(*p),
    {
        let none: Vec<&'a Elem> = Vec::new();
        assert(referents(none@) =~= Seq::empty());
        let proj = joined(&p.proj, &none, 0);
        assert(p.proj@ + referents(none@).skip(0) =~= p.proj@);
        Path { local: p.local, proj, deref: true }
    }

    /// Whether the path starts with a deref.
    fn starts_with_deref(&self) -> (r: bool)
        ensures
            r == (self.value().proj.len() > 0 && self.value().proj[0] is Deref),
    {
        if self.proj.len() > 0 {
            assert(referents(self.proj@)[0] == *self.proj@[0]);
            match self.proj[0] {
                Elem::Deref => true,
                _ => false,
            }
        } else {
            self.deref
        }
    }

    /// Whether the path is what the local refers to, as a whole.
    fn is_whole_referent(&self) -> (r: bool)
        ensures
            r == is_referent(self.value()),
    {
        if self.deref {
            self.proj.len() == 0
        } else {
            self.proj.len() == 1 && self.starts_with_deref()
        }
    }
}

/// The steps `a`, and then those of `b` from the step `first` on.
fn joined<'a>(a: &'a Vec<Elem>, b: &Vec<&'a Elem>, first: usize) -> (r: Vec<&'a Elem>)
    requires
        first <= b@.len(),
    ensures
        referents(r@) == a@ + referents(b@).skip(first as int),
{
    let mut out: Vec<&'a Elem> = Vec::new();
    let mut i: usize = 0;
    while i < a.len()
        invariant
            i <= a@.len(),
            out@.len() == i,
            forall|k: int| 0 <= k < i ==> *(#[trigger] out@[k]) == a@[k],
        decreases a@.len() - i,
    {
        out.push(&a[i]);
        i = i + 1;
    }
    let mut j: usize = first;
    while j < b.len()
        invariant
            first <= j <= b@.len(),
            out@.len() == a@.len() + j - first,
            forall|k: int| 0 <= k < a@.len() ==> *(#[trigger] out@[k]) == a@[k],
            forall|k: int|
                a@.len() <= k < out@.len() ==> *(#[trigger] out@[k]) == *b@[k - a@.len() + first],
        decreases b@.len() - j,
    {
        out.push(b[j]);
        j = j + 1;
    }
    assert(referents(out@) =~= a@ + referents(b@).skip(first as int));
    out
}

/// One definition back.
fn step<'a>(body: &'a Body, p: &Path<'a>) -> (r: Option<Path<'a>>)
    requires
        p.local < body.locals@.len(),
    ensures
        match r {
            Some(q) => step_back(*body, p.value()) == Some(q.value()),
            None => step_back(*body, p.value()) is None,
        },
{
    if 1 <= p.local && p.local <= body.arg_count {
        return None;
    }
    let ghost q = p.value().proj;
    let ghost steps = referents(p.proj@);
    if p.starts_with_deref() {
        if let Some(src) = sole_borrow_source(body, p.local) {
            if p.proj.len() > 0 {
                let proj = joined(&src.proj, &p.proj, 1);
                assert(q.skip(1) =~= if p.deref {
                    steps.skip(1).push(Elem::Deref)
                } else {
                    steps.skip(1)
                });
                let r = Path { local: src.local, proj, deref: p.deref };
                assert(r.value().proj =~= src.proj@ + q.skip(1));
                return Some(r);
            }
            let proj = joined(&src.proj, &p.proj, 0);
            assert(steps =~= Seq::empty());
            let r = Path { local: src.local, proj, deref: false };
            assert(r.value().proj =~= src.proj@ + q.skip(1));
            return Some(r);
        }
    }
    if let Some(src) = sole_copy_source(body, p.local) {
        let proj = joined(&src.proj, &p.proj, 0);
        let r = Path { local: src.local, proj, deref: p.deref };
        assert(steps.skip(0) =~= steps);
        assert(r.value().proj =~= src.proj@ + q);
        return Some(r);
    }
    None
}

/// Follows temporaries back to the place that is actually meant.
pub fn resolve_place_root<'a>(body: &'a Body, place: Path<'a>) -> (r: Path<'a>)
    requires
        body.wf(),
        place.local < body.locals@.len(),
    ensures
        r.value() == root_of(*body, place.value(), HOPS as nat),
        r.local < body.locals@.len(),
{
    let ghost start = place.value();
    let mut cur: Path<'a> = place;
    let mut left: usize = HOPS;
    loop
        invariant
            body.wf(),
            start == place.value(),
            cur.local < body.locals@.len(),
            root_of(*body, start, HOPS as nat) == root_of(*body, cur.value(), left as nat),
        decreases left,
    {
        match step(body, &cur) {
            None => {
                return cur;
            },
            Some(next) => {
                if left == 0 {
                    return cur;
                }
                proof {
                    lemma_step_in(*body, cur.value());
                }
                cur = next;
                left = left - 1;
            },
        }
    }
}

/// The locals that a value was moved through, from `local` back, at most `hops`
/// moves away.
pub open spec fn moved_through(body: Body, local: usize, hops: nat) -> Seq<usize>
    decreases hops,
{
    match moves(assigned_to(body, local)) {
        Tally::One(from) => if hops > 0 {
            seq![local] + moved_through(body, from, (hops - 1) as nat)
        } else {
            seq![local]
        },
        _ => seq![local],
    }
}

/// The chain of locals a value was moved through: `start` and everything it was
/// moved out of. `mem::drop(g)` is `_tmp = move _g; drop(_tmp)`, so releasing only
/// the temporary would leave the real guard live.
pub fn move_chain(body: &Body, start: usize) -> (r: Vec<usize>)
    ensures
        r@ == moved_through(*body, start, HOPS as nat),
        r@.len() > 0,
{
    let mut chain: Vec<usize> = Vec::new();
    let mut cur: usize = start;
    let mut left: usize = HOPS;
    assert(chain@ + moved_through(*body, cur, left as nat) =~= moved_through(
        *body,
        start,
        HOPS as nat,
    ));
    while left > 0
        invariant
            chain@ + moved_through(*body, cur, left as nat) == moved_through(
                *body,
                start,
                HOPS as nat,
            ),
        decreases left,
    {
        let ghost before = chain@;
        chain.push(cur);
        match move_source(body, cur) {
            Tally::One(from) => {
                assert(before + moved_through(*body, cur, left as nat) =~= chain@ + moved_through(
                    *body,
                    from,
                    (left - 1) as nat,
                ));
                cur = from;
                left = left - 1;
            },
            _ => {
                assert(chain@ =~= before + moved_through(*body, cur, left as nat));
                return chain;
            },
        }
    }
    let ghost before = chain@;
    chain.push(cur);
    assert(chain@ =~= before + moved_through(*body, cur, 0));
    chain
}

/// The parameter that `local` was read from, at most `hops` steps away.
pub open spec fn param_of(body: Body, local: usize, hops: nat) -> Option<usize>
    decreases hops,
{
    if hops == 0 {
        None
    } else if is_param(body, local) {
        Some(local)
    } else {
        match reads(assigned_to(body, local)) {
            Tally::One(from) => param_of(body, from, (hops - 1) as nat),
            _ => None,
        }
    }
}

/// Traces `local` back through moves and copies to a parameter: an indirect call
/// on it is one on a callable that the function received.
pub fn resolve_to_param(body: &Body, local: usize) -> (r: Option<usize>)
    ensures
        r == param_of(*body, local, HOPS as nat),
{
    let mut cur: usize = local;
    let mut left: usize = HOPS;
    while left > 0
        invariant
            param_of(*body, local, HOPS as nat) == param_of(*body, cur, left as nat),
        decreases left,
    {
        if 1 <= cur && cur <= body.arg_count {
            return Some(cur);
        }
        match read_source(body, cur) {
            Tally::One(from) => {
                cur = from;
            },
            _ => {
                return None;
            },
        }
        left = left - 1;
    }
    None
}

/// The call at the end of a block gives `local` its value.
pub open spec fn calls_into(b: Block, local: usize) -> bool {
    match b.terminator.kind {
        TermKind::Call { callee, args, dest } => dest.local == local && dest.proj@.len() == 0,
        _ => false,
    }
}

/// The blocks whose calls give `local` its value.
pub open spec fn defining_calls(body: Body, n: int, local: usize) -> Tally<int>
    decreases n,
{
    if 0 < n <= body.blocks@.len() {
        tally_with(
            defining_calls(body, n - 1, local),
            if calls_into(body.blocks@[n - 1], local) {
                Some(n - 1)
            } else {
                None
            },
        )
    } else {
        Tally::Zero
    }
}

/// Some call gives `local` its value.
pub open spec fn is_result(body: Body, local: usize) -> bool {
    !(defining_calls(body, body.blocks@.len() as int, local) is Zero)
}

/// The one call that gives `local` its value, if it names a function.
pub open spec fn defined_by(body: Body, local: usize) -> Option<(Callee, Seq<Operand>)> {
    match defining_calls(body, body.blocks@.len() as int, local) {
        Tally::One(b) => match body.blocks@[b].terminator.kind {
            TermKind::Call { callee: Some(c), args, dest } => Some((c, args@)),
            _ => None,
        },
        _ => None,
    }
}

proof fn lemma_defining_call(body: Body, n: int, local: usize)
    requires
        0 <= n <= body.blocks@.len(),
    ensures
        match defining_calls(body, n, local) {
            Tally::One(b) => 0 <= b < n && calls_into(body.blocks@[b], local),
            _ => true,
        },
    decreases n,
{
    if n > 0 {
        lemma_defining_call(body, n - 1, local);
    }
}

/// The block of the call that gives `local` its value: how many there are.
fn defining_call(body: &Body, local: usize) -> (r: Tally<usize>)
    ensures
        match r {
            Tally::Zero => defining_calls(*body, body.blocks@.len() as int, local) is Zero,
            Tally::One(b) => b < body.blocks@.len() && calls_into(body.blocks@[b as int], local)
                && defining_calls(*body, body.blocks@.len() as int, local) == Tally::One(b as int),
            Tally::Many => defining_calls(*body, body.blocks@.len() as int, local) is Many,
        },
{
    let mut found: Tally<usize> = Tally::Zero;
    let mut b: usize = 0;
    while b < body.blocks.len()
        invariant
            b <= body.blocks@.len(),
            match found {
                Tally::Zero => defining_calls(*body, b as int, local) is Zero,
                Tally::One(k) => defining_calls(*body, b as int, local) == Tally::One(k as int),
                Tally::Many => defining_calls(*body, b as int, local) is Many,
            },
        decreases body.blocks@.len() - b,
    {
        match &body.blocks[b].terminator.kind {
            TermKind::Call { callee: _, args: _, dest } => {
                if dest.local == local && dest.proj.len() == 0 {
                    found = match found {
                        Tally::Zero => Tally::One(b),
                        _ => Tally::Many,
                    };
                }
            },
            _ => {},
        }
        b = b + 1;
    }
    proof {
        lemma_defining_call(*body, b as int, local);
    }
    found
}

/// Whether `local` holds a value that a function returned. Such a value has no
/// path of its own.
pub fn is_call_destination(body: &Body, local: usize) -> (r: bool)
    ensures
        r == is_result(*body, local),
{
    match defining_call(body, local) {
        Tally::Zero => false,
        _ => true,
    }
}

/// The call that gives `local` its value, with its callee and its arguments, if
/// there is exactly one and it names a function.
pub fn call_defining(body: &Body, local: usize) -> (r: Option<(&Callee, &Vec<Operand>)>)
    ensures
        match r {
            Some((c, args)) => defined_by(*body, local) == Some((*c, args@)),
            None => defined_by(*body, local) is None,
        },
{
    match defining_call(body, local) {
        Tally::One(b) => match &body.blocks[b].terminator.kind {
            TermKind::Call { callee: Some(c), args, dest: _ } => Some((c, args)),
            _ => None,
        },
        _ => None,
    }
}

/// The static whose address `local` holds.
pub open spec fn static_of(body: Body, local: usize) -> Option<Name> {
    let q = assigned_to(body, local);
    if q.len() == 1 && !is_param(body, local) && !is_result(body, local) {
        match q[0] {
            Rvalue::Use(Operand::Const { ty, item: Some(path) }) => Some(path@),
            _ => None,
        }
    } else {
        None
    }
}

/// The static whose address `local` holds: its one value is the constant.
fn static_name<'a>(body: &'a Body, local: usize) -> (r: Option<&'a String>)
    ensures
        match r {
            Some(s) => static_of(*body, local) == Some(s@),
            None => static_of(*body, local) is None,
        },
{
    let all = assignments(body, local);
    assert(referents(all@).len() == all@.len());
    if all.len() != 1 || (1 <= local && local <= body.arg_count) || is_call_destination(
        body,
        local,
    ) {
        return None;
    }
    assert(referents(all@)[0] == *all@[0]);
    match all[0] {
        Rvalue::Use(Operand::Const { ty: _, item: Some(path) }) => Some(path),
        _ => None,
    }
}

/// A projection as it is shown: in the class, in the identity of the instance,
/// and the type of what it leads to.
pub struct ShownV {
    pub sym: Name,
    pub id: Name,
    pub ty: Ty,
}

/// The name of the field number `i` of a value of type `ty`.
pub open spec fn field_name(ty: Ty, i: usize) -> Name {
    match ty.kind {
        TyKind::Adt { path, args, fields: Some(fs) } => if i < fs@.len() {
            fs@[i as int]@
        } else {
            "f"@ + dec(i as nat)
        },
        _ => "f"@ + dec(i as nat),
    }
}

/// What a reference of type `ty` refers to.
pub open spec fn referred(ty: Ty) -> Ty {
    match ty.kind {
        TyKind::Ref(inner) => *inner,
        _ => ty,
    }
}

/// One step further.
pub open spec fn show_elem(s: ShownV, e: Elem) -> ShownV {
    match e {
        Elem::Field { index, ty } => {
            let name = field_name(s.ty, index);
            ShownV {
                sym: s.sym + "."@ + name + ":"@ + erased(ty.text@),
                id: s.id + "."@ + name,
                ty,
            }
        },
        Elem::Deref => ShownV { sym: s.sym + ".*"@, id: s.id, ty: referred(s.ty) },
        Elem::Other => ShownV { sym: s.sym + ".[]"@, ..s },
    }
}

/// The first `n` steps of a projection, after `start`.
pub open spec fn shown_from(start: ShownV, proj: Seq<Elem>, n: int) -> ShownV
    decreases n,
{
    if 0 < n <= proj.len() {
        show_elem(shown_from(start, proj, n - 1), proj[n - 1])
    } else {
        start
    }
}

/// A projection from a value of type `ty`.
pub open spec fn shown_projection(ty: Ty, proj: Seq<Elem>) -> ShownV {
    shown_from(ShownV { sym: Seq::empty(), id: Seq::empty(), ty }, proj, proj.len() as int)
}

/// A place, from where it starts: a static by its name, which stands for the
/// static itself rather than its address; any other local by its type.
pub open spec fn shown_path(body: Body, p: PathV) -> ShownV {
    let ty = body.locals@[p.local as int];
    match static_of(body, p.local) {
        Some(path) => {
            let first: int = if p.proj.len() > 0 && p.proj[0] is Deref {
                1
            } else {
                0
            };
            let proj = p.proj.skip(first);
            shown_from(
                ShownV { sym: path, id: path, ty: referred(ty) },
                proj,
                proj.len() as int,
            )
        },
        None => shown_from(
            ShownV {
                sym: erased(ty.text@),
                id: erased(ty.text@) + "#"@ + dec(p.local as nat),
                ty,
            },
            p.proj,
            p.proj.len() as int,
        ),
    }
}

/// A place as it is shown.
pub struct Shown<'a> {
    pub sym: String,
    pub id: String,
    pub ty: &'a Ty,
}

impl<'a> Shown<'a> {
    pub open spec fn value(&self) -> ShownV {
        ShownV { sym: self.sym@, id: self.id@, ty: *self.ty }
    }

    /// Appends a deref.
    fn show_deref(&mut self)
        ensures
            final(self).value() == show_elem(old(self).value(), Elem::Deref),
    {
        self.sym.append(".*");
        match &self.ty.kind {
            TyKind::Ref(inner) => {
                self.ty = inner;
            },
            _ => {},
        }
    }

    /// Appends one step. Fields bear their source names, so the same field
    /// reached in two ways is shown alike.
    fn show(&mut self, e: &'a Elem)
        ensures
            final(self).value() == show_elem(old(self).value(), *e),
    {
        match e {
            Elem::Field { index, ty } => {
                let name = self.field(*index);
                self.sym.append(".");
                self.sym.append(name.as_str());
                self.sym.append(":");
                self.sym.append(erase_args(ty.text.as_str()).as_str());
                self.id.append(".");
                self.id.append(name.as_str());
                self.ty = ty;
            },
            Elem::Deref => self.show_deref(),
            Elem::Other => {
                self.sym.append(".[]");
            },
        }
    }

    /// Appends the steps of a place, without a deref that comes first if
    /// `skip_deref`.
    fn render_projection(&mut self, p: &Path<'a>, skip_deref: bool)
        ensures
            final(self).value() == ({
                let proj = p.value().proj;
                let first: int = if skip_deref && proj.len() > 0 && proj[0] is Deref {
                    1
                } else {
                    0
                };
                shown_from(old(self).value(), proj.skip(first), proj.len() - first)
            }),
    {
        let ghost start = self.value();
        let ghost proj = p.value().proj;
        let ghost steps = referents(p.proj@);
        let skips = skip_deref && p.starts_with_deref();
        let first: usize = if skips && p.proj.len() > 0 {
            1
        } else {
            0
        };
        let ghost f: int = if skips {
            1
        } else {
            0
        };
        let ghost q = proj.skip(f);
        let mut i: usize = first;
        while i < p.proj.len()
            invariant
                proj == p.value().proj,
                steps == referents(p.proj@),
                f == if skips {
                    1int
                } else {
                    0int
                },
                first == if skips && p.proj@.len() > 0 {
                    1usize
                } else {
                    0usize
                },
                q == proj.skip(f),
                p.proj@.len() > 0 ==> first == f,
                first <= i <= p.proj@.len(),
                p.proj@.len() > 0 ==> self.value() == shown_from(start, q, i - f),
                p.proj@.len() == 0 ==> self.value() == start,
            decreases p.proj@.len() - i,
        {
            assert(steps[i as int] == *p.proj@[i as int]);
            assert(proj[i as int] == steps[i as int]);
            assert(q[i - f] == proj[i as int]);
            self.show(p.proj[i]);
            i = i + 1;
        }
        if p.deref && !(skips && p.proj.len() == 0) {
            assert(proj == steps.push(Elem::Deref));
            assert(proj.last() == Elem::Deref);
            assert(q.len() == proj.len() - f);
            assert(q.last() == Elem::Deref);
            assert(self.value() == shown_from(start, q, q.len() - 1));
            self.show_deref();
        }
    }

    /// The name of the field number `i`.
    fn field(&self, i: usize) -> (r: String)
        ensures
            r@ == field_name(*self.ty, i),
    {
        match &self.ty.kind {
            TyKind::Adt { path: _, args: _, fields: Some(fs) } => {
                if i < fs.len() {
                    return fs[i].clone();
                }
            },
            _ => {},
        }
        let mut r = "f".to_string();
        push_dec(&mut r, i);
        r
    }
}

/// Shows a place.
pub fn render_place<'a>(body: &'a Body, place: &Path<'a>) -> (r: Shown<'a>)
    requires
        place.local < body.locals@.len(),
    ensures
        r.value() == shown_path(*body, place.value()),
{
    let ty = &body.locals[place.local];
    match static_name(body, place.local) {
        Some(path) => {
            let mut r = Shown { sym: path.clone(), id: path.clone(), ty: referred_ty(ty) };
            r.render_projection(place, true);
            r
        },
        None => {
            let text = erase_args(ty.text.as_str());
            let mut id = text.clone();
            id.append("#");
            push_dec(&mut id, place.local);
            let mut r = Shown { sym: text, id, ty };
            r.render_projection(place, false);
            assert(place.value().proj.skip(0) =~= place.value().proj);
            r
        },
    }
}

/// A function that returns a reference to a part of what a parameter refers to.
pub struct AccessorV {
    pub param: usize,
    /// The part as seen from what the parameter refers to.
    pub part: Name,
    /// The part in the identity of the instance.
    pub id: Name,
}

/// The accessor that returns a reference to the place `p`, which starts with the
/// deref of a parameter.
pub open spec fn accessor_to(body: Body, p: PathV) -> AccessorV {
    let shown = shown_projection(referred(body.locals@[p.local as int]), p.proj.skip(1));
    AccessorV { param: p.local, part: shown.sym, id: shown.id }
}

/// The local is never given a value.
pub open spec fn is_untouched(body: Body, local: usize) -> bool {
    assigned_to(body, local).len() == 0 && !is_result(body, local)
}

/// Whether the local is never given a value.
fn untouched(body: &Body, local: usize) -> (r: bool)
    ensures
        r == is_untouched(*body, local),
{
    let all = assignments(body, local);
    assert(referents(all@).len() == all@.len());
    all.len() == 0 && !is_call_destination(body, local)
}

/// The body as an accessor: followed back through single definitions, what the
/// returned reference refers to is a part of what a parameter refers to, and the
/// parameter keeps the value it was called with.
pub open spec fn accessor_of(body: Body) -> Option<AccessorV> {
    let p = root_of(body, returned_path(), HOPS as nat);
    if is_param(body, p.local) && is_untouched(body, p.local) && p.proj.len() > 0
        && p.proj[0] is Deref {
        Some(accessor_to(body, p))
    } else {
        None
    }
}

/// What the returned reference refers to.
pub open spec fn returned_path() -> PathV {
    PathV { local: 0, proj: seq![Elem::Deref] }
}

/// A function that returns a reference to a part of what a parameter refers to.
pub struct Accessor {
    pub param: usize,
    pub part: String,
    pub id: String,
}

impl View for Accessor {
    type V = AccessorV;

    open spec fn view(&self) -> AccessorV {
        AccessorV { param: self.param, part: self.part@, id: self.id@ }
    }
}

proof fn lemma_assigned_places(body: Body, n: int, local: usize, i: int)
    requires
        body.wf(),
        0 <= n <= body.blocks@.len(),
        0 <= i < assigned_in(body, n, local).len(),
    ensures
        rvalue_in(assigned_in(body, n, local)[i], body.locals@.len()),
    decreases n,
{
    if n > 0 {
        let b = body.blocks@[n - 1];
        assert(block_in(b, body.locals@.len(), body.blocks@.len()));
        let before = assigned_in(body, n - 1, local);
        if i < before.len() {
            lemma_assigned_places(body, n - 1, local, i);
        } else {
            lemma_statement_places(
                b.statements@,
                b.statements@.len() as int,
                local,
                body.locals@.len(),
                i - before.len(),
            );
        }
    }
}

proof fn lemma_statement_places(
    statements: Seq<Statement>,
    n: int,
    local: usize,
    locals: nat,
    i: int,
)
    requires
        forall|k: int| 0 <= k < statements.len() ==> statement_in(#[trigger] statements[k], locals),
        0 <= n <= statements.len(),
        0 <= i < assigned_by(statements, n, local).len(),
    ensures
        rvalue_in(assigned_by(statements, n, local)[i], locals),
    decreases n,
{
    if n > 0 {
        assert(statement_in(statements[n - 1], locals));
        if i < assigned_by(statements, n - 1, local).len() {
            lemma_statement_places(statements, n - 1, local, locals, i);
        }
    }
}

proof fn lemma_step_in(body: Body, p: PathV)
    requires
        body.wf(),
        p.local < body.locals@.len(),
        step_back(body, p) is Some,
    ensures
        (step_back(body, p)->0).local < body.locals@.len(),
{
    lemma_assigned_places(body, body.blocks@.len() as int, p.local, 0);
}

/// If the body is a simple field accessor, what it returns. A caller then
/// reaches the same class through the accessor as by touching the field.
pub fn accessor_summary(body: &Body) -> (r: Option<Accessor>)
    requires
        body.wf(),
    ensures
        match r {
            Some(a) => accessor_of(*body) == Some(a@),
            None => accessor_of(*body) is None,
        },
{
    let none: Vec<&Elem> = Vec::new();
    let start = Path { local: 0, proj: none, deref: true };
    assert(start.value().proj =~= returned_path().proj);
    let p = resolve_place_root(body, start);
    if p.local < 1 || p.local > body.arg_count || !untouched(body, p.local)
        || !p.starts_with_deref() {
        return None;
    }
    let ty = referred_ty(&body.locals[p.local]);
    let mut part = Shown { sym: String::new(), id: String::new(), ty };
    assert(part.value() == (ShownV { sym: Seq::empty(), id: Seq::empty(), ty: *ty }));
    part.render_projection(&p, true);
    Some(Accessor { param: p.local, part: part.sym, id: part.id })
}

/// The class of a lock, the identity of the instance, and why the class may not
/// be its only one.
pub struct LockV {
    pub class: Name,
    pub id: Name,
    pub reason: Option<Name>,
}

/// The path of the body that a call runs.
pub open spec fn runs(c: Callee) -> Name {
    match c.target {
        Some(t) => t@,
        None => c.path@,
    }
}

/// What is known of the crate before its bodies are scanned.
pub struct CrateV {
    pub accessors: Map<Name, AccessorV>,
    /// The paths of the bodies under analysis.
    pub bodies: Set<Name>,
}

/// The body that a call runs is under analysis.
pub open spec fn is_analyzed(cr: CrateV, c: Callee) -> bool {
    c.target is Some && cr.bodies.contains(runs(c))
}

/// The path, without arguments, of the type, or of the type it refers to.
pub open spec fn wrapper_path(ty: Ty) -> Name {
    match referred(ty).kind {
        TyKind::Adt { path, args, fields } => erased(path@),
        _ => Seq::empty(),
    }
}

/// A value of the type, or of the type it refers to, is a wrapper whose `deref`
/// gives the value that it points to.
pub open spec fn is_wrapper(ty: Ty) -> bool {
    points(wrapper_path(ty))
}

/// A value of the type, or of the type it refers to, is a box: it is the only
/// one to point to its contents, and the language derefs it by itself.
pub open spec fn is_box(ty: Ty) -> bool {
    is_named(wrapper_path(ty), "Box"@)
}

/// Why a lock that a call returned has no class of its own.
pub open spec fn unseen_route(via: Name) -> Name {
    "a lock is reached through `"@ + via
        + "`, whose body is not a simple field              accessor, so it has no canonical class path and may not unify with              the same lock reached directly"@
}

/// Why a lock behind a reference of unknown origin has no class of its own.
pub open spec fn unseen_origin() -> Name {
    "a lock is reached through a reference that does not have one known origin, so it has no canonical class path and may not unify with the same lock reached directly"@
}

/// Why the path of a place, followed back, may not be the only one: it starts at
/// what a call returned, or at a reference that has several definitions or one
/// that is not seen through.
pub open spec fn detour(body: Body, p: PathV) -> Option<Name> {
    if is_result(body, p.local) {
        Some(
            unseen_route(
                match defined_by(body, p.local) {
                    Some((c, _)) => c.path@,
                    None => "<unknown call>"@,
                },
            ),
        )
    } else if is_param(body, p.local) {
        if assigned_to(body, p.local).len() > 0 {
            Some(unseen_origin())
        } else {
            None
        }
    } else if body.locals@[p.local as int].kind is Ref && static_of(body, p.local) is None {
        Some(unseen_origin())
    } else {
        None
    }
}

/// The static that the reference at the place `p` refers to.
pub open spec fn static_behind(body: Body, p: Place) -> Option<Name> {
    let root = root_of(body, referent_of(p), HOPS as nat);
    if is_referent(root) {
        static_of(body, root.local)
    } else {
        None
    }
}

/// The contents of the wrapper that `o` refers to. A pointer can be shared, so
/// wherever one of the type is stored its contents count as one lock; only a
/// static is known by its name.
pub open spec fn pointed_lock(body: Body, o: Operand) -> Option<LockV> {
    match o {
        Operand::Const { ty, item: Some(path) } => Some(
            LockV { class: path@ + ".*"@, id: path@ + ".*"@, reason: None },
        ),
        Operand::Const { ty, item: None } => None,
        Operand::Copy(p, ty) => Some(pointed_at(body, p, ty)),
        Operand::Move(p, ty) => Some(pointed_at(body, p, ty)),
    }
}

/// The contents of the wrapper that the place `p` refers to.
pub open spec fn pointed_at(body: Body, p: Place, ty: Ty) -> LockV {
    match static_behind(body, p) {
        Some(path) => LockV { class: path + ".*"@, id: path + ".*"@, reason: None },
        None => LockV {
            class: "&"@ + erased(referred(ty).text@) + ".*"@,
            id: shown_path(body, path_of(p)).id + ".*"@,
            reason: None,
        },
    }
}

/// The contents of a box, as an accessor.
pub open spec fn box_contents() -> AccessorV {
    AccessorV { param: 1, part: ".*"@, id: Seq::empty() }
}

/// The part that the accessor `a` returns of what the place `arg` refers to.
pub open spec fn part_of(body: Body, a: AccessorV, arg: Place) -> LockV {
    let root = root_of(body, referent_of(arg), HOPS as nat);
    let base = shown_path(body, root);
    LockV { class: base.sym + a.part, id: base.id + a.id, reason: detour(body, root) }
}

/// The lock that the accessor `a` returns when it is called with `args`.
pub open spec fn returned_part(body: Body, a: AccessorV, args: Seq<Operand>) -> Option<LockV> {
    if 1 <= a.param <= args.len() {
        match args[a.param - 1] {
            Operand::Const { ty, item: Some(path) } => Some(
                LockV { class: path@ + a.part, id: path@ + a.id, reason: None },
            ),
            Operand::Const { ty, item: None } => None,
            Operand::Copy(arg, _) => Some(part_of(body, a, arg)),
            Operand::Move(arg, _) => Some(part_of(body, a, arg)),
        }
    } else {
        None
    }
}

/// The lock that a call returns: the field for an accessor, the contents for the
/// `deref` of a wrapper. A body under analysis is known by what it does, whatever
/// the type is called: if it is no accessor, its result has no class.
pub open spec fn returned_lock(cr: CrateV, body: Body, c: Callee, args: Seq<Operand>) -> Option<
    LockV,
> {
    if cr.accessors.contains_key(runs(c)) {
        returned_part(body, cr.accessors[runs(c)], args)
    } else if is_analyzed(cr, c) || !derefs(stripped(c.path@)) || args.len() == 0 {
        None
    } else if is_box(operand_ty(args[0])) {
        returned_part(body, box_contents(), args)
    } else if is_wrapper(operand_ty(args[0])) {
        pointed_lock(body, args[0])
    } else {
        None
    }
}

/// The lock that is returned by the call that alone defines the reference.
pub open spec fn lock_by_call(cr: CrateV, body: Body, cur: PathV) -> Option<LockV> {
    if is_referent(cur) && !is_param(body, cur.local) && assigned_to(body, cur.local).len() == 0 {
        match defined_by(body, cur.local) {
            Some((c, args)) => returned_lock(cr, body, c, args),
            None => None,
        }
    } else {
        None
    }
}

/// The lock at the place `p`.
pub open spec fn lock_at(cr: CrateV, body: Body, p: PathV) -> LockV {
    let cur = root_of(body, p, HOPS as nat);
    match lock_by_call(cr, body, cur) {
        Some(l) => l,
        None => {
            let shown = shown_path(body, cur);
            LockV { class: shown.sym, id: shown.id, reason: detour(body, cur) }
        },
    }
}

/// A lock of which nothing is known.
pub open spec fn unknown_lock() -> LockV {
    LockV {
        class: "<unknown-lock>"@,
        id: "<unknown>"@,
        reason: Some(
            "a lock is taken on a constant that is no static, so it has no canonical class path and may not unify with the same lock reached directly"@,
        ),
    }
}

/// The lock that an operand refers to.
pub open spec fn lock_of(cr: CrateV, body: Body, o: Operand) -> LockV {
    match o {
        Operand::Copy(p, _) => lock_at(cr, body, referent_of(p)),
        Operand::Move(p, _) => lock_at(cr, body, referent_of(p)),
        Operand::Const { ty, item: Some(path) } => LockV {
            class: path@,
            id: path@,
            reason: None,
        },
        Operand::Const { ty, item: None } => unknown_lock(),
    }
}

/// The class of a lock, the identity of the instance, and why the class may not
/// be its only one.
pub struct Lock {
    pub class: String,
    pub id: String,
    pub reason: Option<String>,
}

impl View for Lock {
    type V = LockV;

    open spec fn view(&self) -> LockV {
        LockV { class: self.class@, id: self.id@, reason: opt_name(self.reason) }
    }
}

/// The values of the accessors.
pub open spec fn accessor_views(m: Map<Name, Accessor>) -> Map<Name, AccessorV> {
    m.map_values(|a: Accessor| a@)
}

/// The path of the body that a call runs.
pub fn body_run(c: &Callee) -> (r: &String)
    ensures
        r@ == runs(*c),
{
    match &c.target {
        Some(t) => t,
        None => &c.path,
    }
}

/// What is known of the crate before its bodies are scanned.
pub struct Known {
    pub accessors: NameMap<Accessor>,
    /// The paths of the bodies under analysis.
    pub bodies: NameSet,
}

impl Known {
    pub open spec fn wf(&self) -> bool {
        self.accessors.wf() && self.bodies.wf()
    }

    pub open spec fn value(&self) -> CrateV {
        CrateV { accessors: accessor_views(self.accessors@), bodies: self.bodies@ }
    }

    /// Whether the body that a call runs is under analysis.
    pub fn analyzes(&self, c: &Callee) -> (r: bool)
        ensures
            r == is_analyzed(self.value(), *c),
    {
        c.target.is_some() && self.bodies.contains(body_run(c).as_str())
    }
}

/// What a reference of type `ty` refers to.
fn referred_ty(ty: &Ty) -> (r: &Ty)
    ensures
        *r == referred(*ty),
{
    match &ty.kind {
        TyKind::Ref(t) => t,
        _ => ty,
    }
}

/// The path, without arguments, of the type, or of the type it refers to.
fn path_of_wrapper(ty: &Ty) -> (r: String)
    ensures
        r@ == wrapper_path(*ty),
{
    match &referred_ty(ty).kind {
        TyKind::Adt { path, args: _, fields: _ } => erase_args(path.as_str()),
        _ => String::new(),
    }
}

/// Why the path of a place, followed back, may not be the only one.
fn detour_of(body: &Body, local: usize) -> (r: Option<String>)
    requires
        local < body.locals@.len(),
    ensures
        forall|proj: Seq<Elem>| #[trigger]
            detour(*body, PathV { local, proj }) == opt_name(r),
{
    let is_arg = 1 <= local && local <= body.arg_count;
    if is_call_destination(body, local) {
        let mut why = "a lock is reached through `".to_string();
        match call_defining(body, local) {
            Some((c, _)) => why.append(c.path.as_str()),
            None => why.append("<unknown call>"),
        }
        why.append(
            "`, whose body is not a simple field              accessor, so it has no canonical class path and may not unify with              the same lock reached directly",
        );
        return Some(why);
    }
    let all = assignments(body, local);
    assert(referents(all@).len() == all@.len());
    if (is_arg && all.len() > 0) || (!is_arg && is_reference(&body.locals[local]) && static_name(
        body,
        local,
    ).is_none()) {
        return Some(
            "a lock is reached through a reference that does not have one known origin, so it has no canonical class path and may not unify with the same lock reached directly".to_string(),
        );
    }
    None
}

/// The part that an accessor returns of what the place `arg` refers to.
fn part_at(body: &Body, part: &str, id: &str, arg: &Place) -> (r: Lock)
    requires
        body.wf(),
        place_in(*arg, body.locals@.len()),
    ensures
        forall|param: usize| #[trigger]
            part_of(*body, AccessorV { param, part: part@, id: id@ }, *arg) == r@,
{
    let root = resolve_place_root(body, Path::behind(arg));
    let base = render_place(body, &root);
    let mut class = base.sym;
    class.append(part);
    let mut name = base.id;
    name.append(id);
    let reason = detour_of(body, root.local);
    assert(detour(*body, root.value()) == opt_name(reason)) by {
        assert(root.value() == (PathV { local: root.local, proj: root.value().proj }));
    }
    Lock { class, id: name, reason }
}

/// The lock with the class and the identity `path`, each with something behind.
fn static_lock(path: &str, class_end: &str, id_end: &str) -> (r: Lock)
    ensures
        r@ == (LockV { class: path@ + class_end@, id: path@ + id_end@, reason: None }),
{
    let mut class = path.to_string();
    class.append(class_end);
    let mut id = path.to_string();
    id.append(id_end);
    Lock { class, id, reason: None }
}

/// The lock that an accessor returns.
fn part_returned(
    body: &Body,
    param: usize,
    part: &str,
    id: &str,
    args: &Vec<Operand>,
) -> (r: Option<Lock>)
    requires
        body.wf(),
        forall|i: int|
            0 <= i < args@.len() ==> operand_in(#[trigger] args@[i], body.locals@.len()),
    ensures
        match r {
            Some(l) => returned_part(
                *body,
                AccessorV { param, part: part@, id: id@ },
                args@,
            ) == Some(l@),
            None => returned_part(
                *body,
                AccessorV { param, part: part@, id: id@ },
                args@,
            ) is None,
        },
{
    if param < 1 || param > args.len() {
        return None;
    }
    assert(operand_in(args@[param - 1], body.locals@.len()));
    match &args[param - 1] {
        Operand::Const { ty: _, item: Some(path) } => Some(static_lock(path.as_str(), part, id)),
        Operand::Const { ty: _, item: None } => None,
        Operand::Copy(arg, _) => Some(part_at(body, part, id, arg)),
        Operand::Move(arg, _) => Some(part_at(body, part, id, arg)),
    }
}

/// The contents of the wrapper that the place `p` refers to.
fn pointed_place(body: &Body, p: &Place, ty: &Ty) -> (r: Lock)
    requires
        body.wf(),
        place_in(*p, body.locals@.len()),
    ensures
        r@ == pointed_at(*body, *p, *ty),
{
    let root = resolve_place_root(body, Path::behind(p));
    if root.is_whole_referent() {
        if let Some(path) = static_name(body, root.local) {
            return static_lock(path.as_str(), ".*", ".*");
        }
    }
    let mut class = "&".to_string();
    class.append(erase_args(referred_ty(ty).text.as_str()).as_str());
    class.append(".*");
    let mut id = render_place(body, &Path::at(p)).id;
    id.append(".*");
    Lock { class, id, reason: None }
}

/// The contents of the wrapper that `o` refers to.
fn lock_pointed(body: &Body, o: &Operand) -> (r: Option<Lock>)
    requires
        body.wf(),
        operand_in(*o, body.locals@.len()),
    ensures
        match r {
            Some(l) => pointed_lock(*body, *o) == Some(l@),
            None => pointed_lock(*body, *o) is None,
        },
{
    match o {
        Operand::Const { ty: _, item: Some(path) } => Some(
            static_lock(path.as_str(), ".*", ".*"),
        ),
        Operand::Const { ty: _, item: None } => None,
        Operand::Copy(p, ty) => Some(pointed_place(body, p, ty)),
        Operand::Move(p, ty) => Some(pointed_place(body, p, ty)),
    }
}

/// The lock that a call returns.
fn lock_returned(cr: &Known, body: &Body, c: &Callee, args: &Vec<Operand>) -> (r: Option<Lock>)
    requires
        cr.wf(),
        body.wf(),
        forall|i: int|
            0 <= i < args@.len() ==> operand_in(#[trigger] args@[i], body.locals@.len()),
    ensures
        match r {
            Some(l) => returned_lock(cr.value(), *body, *c, args@) == Some(l@),
            None => returned_lock(cr.value(), *body, *c, args@) is None,
        },
{
    if let Some(a) = cr.accessors.get(body_run(c).as_str()) {
        return part_returned(body, a.param, a.part.as_str(), a.id.as_str(), args);
    }
    if cr.analyzes(c) || !is_deref_call(c.path.as_str()) || args.len() == 0 {
        return None;
    }
    assert(operand_in(args@[0], body.locals@.len()));
    let path = path_of_wrapper(args[0].ty());
    if named(path.as_str(), "Box") {
        proof {
            reveal_strlit("");
            assert(""@ =~= Seq::<char>::empty());
        }
        return part_returned(body, 1, ".*", "", args);
    }
    if is_pointer(path.as_str()) {
        return lock_pointed(body, &args[0]);
    }
    None
}

/// The class of the lock that the reference at `place` refers to. If it is what a
/// call returned, its own path is not the lock's: a simple field accessor or the
/// `deref` of a pointer is seen through; any other call makes the verdict
/// inconclusive.
pub fn lock_class_of_receiver(cr: &Known, body: &Body, place: &Place) -> (r: Lock)
    requires
        cr.wf(),
        body.wf(),
        place_in(*place, body.locals@.len()),
    ensures
        r@ == lock_at(cr.value(), *body, referent_of(*place)),
{
    let cur = resolve_place_root(body, Path::behind(place));
    let all = assignments(body, cur.local);
    assert(referents(all@).len() == all@.len());
    if cur.is_whole_referent() && !(1 <= cur.local && cur.local <= body.arg_count) && all.len()
        == 0 {
        if let Some((c, args)) = call_defining(body, cur.local) {
            proof {
                lemma_defining_call(*body, body.blocks@.len() as int, cur.local);
                let b = defining_calls(*body, body.blocks@.len() as int, cur.local)->One_0;
                assert(block_in(body.blocks@[b], body.locals@.len(), body.blocks@.len()));
            }
            if let Some(l) = lock_returned(cr, body, c, args) {
                return l;
            }
        }
    }
    let shown = render_place(body, &cur);
    let reason = detour_of(body, cur.local);
    assert(detour(*body, cur.value()) == opt_name(reason)) by {
        assert(cur.value() == (PathV { local: cur.local, proj: cur.value().proj }));
    }
    Lock { class: shown.sym, id: shown.id, reason }
}

/// A lock of which nothing is known.
pub fn no_lock() -> (r: Lock)
    ensures
        r@ == unknown_lock(),
{
    Lock {
        class: "<unknown-lock>".to_string(),
        id: "<unknown>".to_string(),
        reason: Some(
            "a lock is taken on a constant that is no static, so it has no canonical class path and may not unify with the same lock reached directly".to_string(),
        ),
    }
}

/// The class of the lock that an operand refers to.
pub fn lock_of_operand(cr: &Known, body: &Body, o: &Operand) -> (r: Lock)
    requires
        cr.wf(),
        body.wf(),
        operand_in(*o, body.locals@.len()),
    ensures
        r@ == lock_of(cr.value(), *body, *o),
{
    match o {
        Operand::Copy(p, _) => lock_class_of_receiver(cr, body, p),
        Operand::Move(p, _) => lock_class_of_receiver(cr, body, p),
        Operand::Const { ty: _, item: Some(path) } => Lock {
            class: path.clone(),
            id: path.clone(),
            reason: None,
        },
        Operand::Const { ty: _, item: None } => no_lock(),
    }
}

/// A projection is shown behind `start` as it is shown by itself.
proof fn lemma_shown_from(start: ShownV, proj: Seq<Elem>, n: int)
    requires
        0 <= n <= proj.len(),
    ensures
        ({
            let none = ShownV { sym: Seq::empty(), id: Seq::empty(), ty: start.ty };
            let a = shown_from(start, proj, n);
            let b = shown_from(none, proj, n);
            a.sym == start.sym + b.sym && a.id == start.id + b.id && a.ty == b.ty
        }),
    decreases n,
{
    let none = ShownV { sym: Seq::empty(), id: Seq::empty(), ty: start.ty };
    if n == 0 {
        assert(start.sym + none.sym =~= start.sym);
        assert(start.id + none.id =~= start.id);
    } else {
        lemma_shown_from(start, proj, n - 1);
        let a = shown_from(start, proj, n);
        let b = shown_from(none, proj, n);
        assert(a.sym =~= start.sym + b.sym);
        assert(a.id =~= start.id + b.id);
    }
}

proof fn lemma_shown_concat(start: ShownV, a: Seq<Elem>, b: Seq<Elem>, n: int)
    requires
        0 <= n <= b.len(),
    ensures
        shown_from(start, a + b, a.len() + n) == shown_from(
            shown_from(start, a, a.len() as int),
            b,
            n,
        ),
    decreases a.len() + n,
{
    if n > 0 {
        lemma_shown_concat(start, a, b, n - 1);
        assert((a + b)[a.len() + n - 1] == b[n - 1]);
    } else if a.len() > 0 {
        lemma_shown_prefix(start, a, a + b, a.len() as int);
    }
}

proof fn lemma_shown_prefix(start: ShownV, a: Seq<Elem>, b: Seq<Elem>, n: int)
    requires
        0 <= n <= a.len() <= b.len(),
        forall|i: int| 0 <= i < a.len() ==> a[i] == b[i],
    ensures
        shown_from(start, a, n) == shown_from(start, b, n),
    decreases n,
{
    if n > 0 {
        lemma_shown_prefix(start, a, b, n - 1);
    }
}

/// A part is shown alike whether it is reached through an accessor or directly.
/// `p` is the place that the accessor returns, as seen in its own body; `root` is
/// what it is called on, and `direct` the same part seen from there.
pub proof fn parts_unify(accessor: Body, p: PathV, body: Body, root: PathV, direct: PathV)
    requires
        p.proj.len() > 0,
        p.proj[0] is Deref,
        shown_path(body, root).ty == referred(accessor.locals@[p.local as int]),
        static_of(body, root.local) is Some ==> root.proj.len() > 0,
        direct.local == root.local,
        direct.proj == root.proj + p.proj.skip(1),
    ensures
        shown_path(body, direct).sym == shown_path(body, root).sym + accessor_to(accessor, p).part,
        shown_path(body, direct).id == shown_path(body, root).id + accessor_to(accessor, p).id,
{
    let ty = body.locals@[root.local as int];
    let rest = p.proj.skip(1);
    let n = rest.len() as int;
    let start = match static_of(body, root.local) {
        Some(path) => ShownV { sym: path, id: path, ty: referred(ty) },
        None => ShownV {
            sym: erased(ty.text@),
            id: erased(ty.text@) + "#"@ + dec(root.local as nat),
            ty,
        },
    };
    let first: int = if static_of(body, root.local) is Some && root.proj.len() > 0
        && root.proj[0] is Deref {
        1
    } else {
        0
    };
    let base = root.proj.skip(first);
    assert(direct.proj.skip(first) =~= base + rest);
    assert(root.proj.skip(0) =~= root.proj);
    assert(direct.proj.skip(0) =~= direct.proj);
    assert(static_of(body, root.local) is Some ==> direct.proj[0] == root.proj[0]);
    lemma_shown_concat(start, base, rest, n);
    lemma_shown_from(shown_path(body, root), rest, n);
}

/// A temporary is seen through: what is reached through `_t = &SRC` is shown as
/// what is reached from SRC.
pub proof fn borrows_are_seen_through(body: Body, t: usize, rest: Seq<Elem>, hops: nat)
    requires
        !is_param(body, t),
        borrowed_by(body, t) is Some,
    ensures
        ({
            let src = borrowed_by(body, t)->0;
            let through = PathV { local: t, proj: seq![Elem::Deref] + rest };
            let from = PathV { local: src.local, proj: src.proj@ + rest };
            root_of(body, through, hops + 1) == root_of(body, from, hops)
        }),
{
    let through = PathV { local: t, proj: seq![Elem::Deref] + rest };
    assert(through.proj.skip(1) =~= rest);
}

/// The reference `r` is what a call returns that reads the part `p` of what its
/// argument `arg` refers to, in the body `accessor`.
pub open spec fn behind_accessor(
    cr: CrateV,
    body: Body,
    r: Place,
    accessor: Body,
    p: PathV,
    arg: Place,
) -> bool {
    let cur = root_of(body, referent_of(r), HOPS as nat);
    &&& is_referent(cur)
    &&& !is_param(body, cur.local)
    &&& assigned_to(body, cur.local).len() == 0
    &&& defined_by(body, cur.local) is Some
    &&& ({
        let (c, args) = defined_by(body, cur.local)->0;
        &&& cr.accessors.contains_key(runs(c))
        &&& cr.accessors[runs(c)] == accessor_to(accessor, p)
        &&& 1 <= p.local <= args.len()
        &&& place_of(args[p.local - 1]) == Some(arg)
    })
}

/// A lock is one lock however it is reached: behind an accessor, be it a function
/// or the `deref` of any type, it gets the class and the identity that it gets as
/// a part of what the argument refers to. Where the argument has no path of its
/// own, that is reported.
pub proof fn locks_behind_accessors_unify(
    cr: CrateV,
    body: Body,
    r: Place,
    accessor: Body,
    p: PathV,
    arg: Place,
    direct: PathV,
)
    requires
        behind_accessor(cr, body, r, accessor, p, arg),
        p.proj.len() > 0,
        p.proj[0] is Deref,
        ({
            let root = root_of(body, referent_of(arg), HOPS as nat);
            &&& shown_path(body, root).ty == referred(accessor.locals@[p.local as int])
            &&& static_of(body, root.local) is Some ==> root.proj.len() > 0
            &&& direct.local == root.local
            &&& direct.proj == root.proj + p.proj.skip(1)
        }),
        root_of(body, direct, HOPS as nat) == direct,
    ensures
        ({
            let lock = lock_at(cr, body, referent_of(r));
            match detour(body, root_of(body, referent_of(arg), HOPS as nat)) {
                Some(_) => lock.reason is Some,
                None => lock == lock_at(cr, body, direct) && lock.reason is None,
            }
        }),
{
    let root = root_of(body, referent_of(arg), HOPS as nat);
    parts_unify(accessor, p, body, root, direct);
    if detour(body, root) is None {
        assert(defined_by(body, direct.local) is None);
        assert(detour(body, direct) is None);
    }
}

/// No lock is split in silence: what a call returned gets the class of what an
/// accessor returns, of the contents of a box or of a shared pointer, or the
/// analysis is incomplete.
pub proof fn unseen_calls_are_reported(cr: CrateV, body: Body, p: PathV)
    requires
        is_result(body, root_of(body, p, HOPS as nat).local),
        lock_by_call(cr, body, root_of(body, p, HOPS as nat)) is None,
    ensures
        lock_at(cr, body, p).reason is Some,
{
}

/// A body under analysis is known by what it does: whatever its type is called,
/// a `deref` of the crate that is no accessor makes the analysis incomplete.
pub proof fn opaque_derefs_are_reported(cr: CrateV, body: Body, p: PathV)
    requires
        ({
            let cur = root_of(body, p, HOPS as nat);
            &&& defined_by(body, cur.local) is Some
            &&& is_analyzed(cr, (defined_by(body, cur.local)->0).0)
            &&& !cr.accessors.contains_key(runs((defined_by(body, cur.local)->0).0))
        }),
    ensures
        lock_at(cr, body, p).reason is Some,
{
}

/// A reference with several definitions is not followed, and is reported where a
/// lock is reached through it.
pub proof fn several_definitions_are_reported(cr: CrateV, body: Body, p: PathV)
    requires
        !is_param(body, p.local),
        body.locals@[p.local as int].kind is Ref,
        assigned_to(body, p.local).len() > 0,
        !assigned_once(body, p.local),
    ensures
        root_of(body, p, HOPS as nat) == p,
        lock_at(cr, body, p).reason is Some,
{
}

/// A box is one lock with its contents: its `deref` gets the class and the
/// identity that the language's own deref of the same place gets.
pub proof fn boxes_unify(
    cr: CrateV,
    body: Body,
    c: Callee,
    args: Seq<Operand>,
    arg: Place,
    direct: PathV,
)
    requires
        !cr.accessors.contains_key(runs(c)),
        !is_analyzed(cr, c),
        derefs(stripped(c.path@)),
        args.len() > 0,
        place_of(args[0]) == Some(arg),
        is_box(operand_ty(args[0])),
        ({
            let root = root_of(body, referent_of(arg), HOPS as nat);
            &&& static_of(body, root.local) is Some ==> root.proj.len() > 0
            &&& direct.local == root.local
            &&& direct.proj == root.proj.push(Elem::Deref)
        }),
    ensures
        returned_lock(cr, body, c, args) is Some,
        (returned_lock(cr, body, c, args)->0).class == shown_path(body, direct).sym,
        (returned_lock(cr, body, c, args)->0).id == shown_path(body, direct).id,
{
    let root = root_of(body, referent_of(arg), HOPS as nat);
    let ty = body.locals@[root.local as int];
    let start = match static_of(body, root.local) {
        Some(path) => ShownV { sym: path, id: path, ty: referred(ty) },
        None => ShownV {
            sym: erased(ty.text@),
            id: erased(ty.text@) + "#"@ + dec(root.local as nat),
            ty,
        },
    };
    let first: int = if static_of(body, root.local) is Some && root.proj[0] is Deref {
        1
    } else {
        0
    };
    let base = shown_path(body, root);
    let q = seq![Elem::Deref];
    assert(base.id + Seq::<char>::empty() =~= base.id);
    assert(root.proj.skip(0) =~= root.proj);
    assert(direct.proj.skip(0) =~= direct.proj);
    assert(direct.proj.skip(first) =~= root.proj.skip(first) + q);
    assert(static_of(body, root.local) is Some ==> direct.proj[0] == root.proj[0]);
    lemma_shown_concat(start, root.proj.skip(first), q, 1);
    assert(shown_from(base, q, 0) == base);
    assert(shown_from(base, q, 1) == show_elem(base, q[0]));
}

/// A pointer can be shared, so its contents are one lock wherever a pointer of
/// the type is stored, and in whichever body it is reached.
pub proof fn shared_pointers_unify(
    cr: CrateV,
    a: Body,
    b: Body,
    c: Callee,
    x: Operand,
    y: Operand,
)
    requires
        !cr.accessors.contains_key(runs(c)),
        !is_analyzed(cr, c),
        derefs(stripped(c.path@)),
        is_wrapper(operand_ty(x)) && !is_box(operand_ty(x)),
        is_wrapper(operand_ty(y)) && !is_box(operand_ty(y)),
        erased(referred(operand_ty(x)).text@) == erased(referred(operand_ty(y)).text@),
        place_of(x) is Some && static_behind(a, place_of(x)->0) is None,
        place_of(y) is Some && static_behind(b, place_of(y)->0) is None,
    ensures
        returned_lock(cr, a, c, seq![x]) is Some,
        returned_lock(cr, b, c, seq![y]) is Some,
        (returned_lock(cr, a, c, seq![x])->0).class == (returned_lock(
            cr,
            b,
            c,
            seq![y],
        )->0).class,
{
    assert(seq![x][0] == x);
    assert(seq![y][0] == y);
}

}
