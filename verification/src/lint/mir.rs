//! Function bodies as plain data.

use vstd::prelude::*;

verus! {

/// A type.
pub struct Ty {
    /// The type as the compiler shows it.
    pub text: String,
    pub kind: TyKind,
}

/// What matters of a type.
pub enum TyKind {
    /// A struct, enum or union.
    Adt {
        /// Its path with its arguments, as the compiler shows it.
        path: String,
        /// Its type arguments, as the compiler shows them.
        args: Vec<String>,
        /// The names of its fields, if it is a struct.
        fields: Option<Vec<String>>,
    },
    /// A reference.
    Ref(Box<Ty>),
    /// A generic parameter, a function pointer or a trait object: something that
    /// can be called, though it is not known what runs then.
    Callable,
    /// A closure or a function item, by the path of its body.
    Body(String),
    Other,
}

/// One step from a place to a part of it.
pub enum Elem {
    Field { index: usize, ty: Ty },
    Deref,
    Other,
}

/// A local variable, or a part of what it holds or refers to.
pub struct Place {
    pub local: usize,
    pub proj: Vec<Elem>,
}

/// What is read, with its type.
pub enum Operand {
    Copy(Place, Ty),
    Move(Place, Ty),
    Const {
        ty: Ty,
        /// The path of the static whose address the constant is.
        item: Option<String>,
    },
}

/// What is assigned.
pub enum Rvalue {
    Use(Operand),
    /// A borrow.
    Ref(Place),
    Other,
}

pub enum Statement {
    Assign(Place, Rvalue),
    StorageDead(usize),
    Other,
}

/// The function named in a call.
pub struct Callee {
    /// Its path; for a trait's method, that of the method in the trait.
    pub path: String,
    /// The path of the body that will run, where the compiler can tell.
    pub target: Option<String>,
    /// It belongs to the crate under analysis.
    pub local: bool,
    /// It is a method of a trait.
    pub of_trait: bool,
}

pub enum TermKind {
    Call {
        /// `None` for a call through a value.
        callee: Option<Callee>,
        args: Vec<Operand>,
        dest: Place,
    },
    Drop(Place),
    Other,
}

/// The end of a block.
pub struct Terminator {
    pub kind: TermKind,
    /// `file:line`.
    pub site: String,
    /// The blocks that may follow.
    pub next: Vec<usize>,
}

pub struct Block {
    pub statements: Vec<Statement>,
    pub terminator: Terminator,
}

/// The body of a function. Local 0 is the returned value, locals 1 to
/// `arg_count` are the parameters; execution starts in block 0.
pub struct Body {
    pub path: String,
    pub is_closure: bool,
    pub arg_count: usize,
    pub locals: Vec<Ty>,
    pub blocks: Vec<Block>,
}

/// The place names a local of the body.
pub open spec fn place_in(p: Place, n: nat) -> bool {
    p.local < n
}

/// The operand names locals of the body.
pub open spec fn operand_in(o: Operand, n: nat) -> bool {
    match o {
        Operand::Copy(p, _) => place_in(p, n),
        Operand::Move(p, _) => place_in(p, n),
        Operand::Const { ty, item } => true,
    }
}

/// The right-hand side names locals of the body.
pub open spec fn rvalue_in(r: Rvalue, n: nat) -> bool {
    match r {
        Rvalue::Use(o) => operand_in(o, n),
        Rvalue::Ref(p) => place_in(p, n),
        Rvalue::Other => true,
    }
}

/// The statement names locals of the body.
pub open spec fn statement_in(s: Statement, n: nat) -> bool {
    match s {
        Statement::Assign(p, r) => place_in(p, n) && rvalue_in(r, n),
        Statement::StorageDead(l) => l < n,
        Statement::Other => true,
    }
}

/// The terminator names locals and blocks of the body.
pub open spec fn terminator_in(t: Terminator, n: nat, blocks: nat) -> bool {
    &&& match t.kind {
        TermKind::Call { callee, args, dest } => place_in(dest, n) && forall|i: int|
            0 <= i < args@.len() ==> operand_in(#[trigger] args@[i], n),
        TermKind::Drop(p) => place_in(p, n),
        TermKind::Other => true,
    }
    &&& forall|i: int| 0 <= i < t.next@.len() ==> (#[trigger] t.next@[i]) < blocks
}

/// The block names locals and blocks of the body.
pub open spec fn block_in(b: Block, n: nat, blocks: nat) -> bool {
    &&& forall|i: int|
        0 <= i < b.statements@.len() ==> statement_in(#[trigger] b.statements@[i], n)
    &&& terminator_in(b.terminator, n, blocks)
}

impl Body {
    /// Every name stands for a local or a block of the body.
    pub open spec fn wf(&self) -> bool {
        &&& self.arg_count < self.locals@.len()
        &&& forall|b: int|
            0 <= b < self.blocks@.len() ==> block_in(
                #[trigger] self.blocks@[b],
                self.locals@.len(),
                self.blocks@.len(),
            )
    }
}

/// The place that an operand reads.
pub open spec fn place_of(o: Operand) -> Option<Place> {
    match o {
        Operand::Copy(p, _) => Some(p),
        Operand::Move(p, _) => Some(p),
        Operand::Const { ty, item } => None,
    }
}

impl Operand {
    /// The place that the operand reads.
    pub fn place(&self) -> (r: Option<&Place>)
        ensures
            match r {
                Some(p) => place_of(*self) == Some(*p),
                None => place_of(*self) is None,
            },
    {
        match self {
            Operand::Copy(p, _) => Some(p),
            Operand::Move(p, _) => Some(p),
            Operand::Const { ty: _, item: _ } => None,
        }
    }
}

/// The type of an operand.
pub open spec fn operand_ty(o: Operand) -> Ty {
    match o {
        Operand::Copy(_, ty) => ty,
        Operand::Move(_, ty) => ty,
        Operand::Const { ty, item } => ty,
    }
}

impl Operand {
    /// The type of the operand.
    pub fn ty(&self) -> (r: &Ty)
        ensures
            *r == operand_ty(*self),
    {
        match self {
            Operand::Copy(_, ty) => ty,
            Operand::Move(_, ty) => ty,
            Operand::Const { ty, item: _ } => ty,
        }
    }
}

/// What is assigned to `local` as a whole by the first `n` statements.
pub open spec fn assigned_by(statements: Seq<Statement>, n: int, local: usize) -> Seq<Rvalue>
    decreases n,
{
    if 0 < n <= statements.len() {
        let before = assigned_by(statements, n - 1, local);
        match statements[n - 1] {
            Statement::Assign(dest, rvalue) => if dest.local == local && dest.proj@.len() == 0 {
                before.push(rvalue)
            } else {
                before
            },
            _ => before,
        }
    } else {
        Seq::empty()
    }
}

/// What is assigned to `local` as a whole in the first `n` blocks.
pub open spec fn assigned_in(body: Body, n: int, local: usize) -> Seq<Rvalue>
    decreases n,
{
    if 0 < n <= body.blocks@.len() {
        let b = body.blocks@[n - 1];
        assigned_in(body, n - 1, local) + assigned_by(
            b.statements@,
            b.statements@.len() as int,
            local,
        )
    } else {
        Seq::empty()
    }
}

/// What the body assigns to `local` as a whole.
pub open spec fn assigned_to(body: Body, local: usize) -> Seq<Rvalue> {
    assigned_in(body, body.blocks@.len() as int, local)
}

/// The values that a vector of references refers to.
pub open spec fn referents<T>(v: Seq<&T>) -> Seq<T> {
    v.map_values(|x: &T| *x)
}

/// What the body assigns to `local` as a whole.
pub fn assignments<'a>(body: &'a Body, local: usize) -> (r: Vec<&'a Rvalue>)
    ensures
        referents(r@) == assigned_to(*body, local),
{
    let mut out: Vec<&'a Rvalue> = Vec::new();
    let mut b: usize = 0;
    assert(referents(out@) =~= Seq::empty());
    while b < body.blocks.len()
        invariant
            b <= body.blocks@.len(),
            referents(out@) == assigned_in(*body, b as int, local),
        decreases body.blocks@.len() - b,
    {
        let statements = &body.blocks[b].statements;
        let ghost start = referents(out@);
        let mut i: usize = 0;
        assert(start + assigned_by(statements@, 0, local) =~= start);
        while i < statements.len()
            invariant
                i <= statements@.len(),
                referents(out@) == start + assigned_by(statements@, i as int, local),
            decreases statements@.len() - i,
        {
            let ghost before = referents(out@);
            match &statements[i] {
                Statement::Assign(dest, rvalue) => {
                    if dest.local == local && dest.proj.len() == 0 {
                        out.push(rvalue);
                        assert(referents(out@) =~= before.push(*rvalue));
                    }
                },
                _ => {},
            }
            i = i + 1;
            assert(referents(out@) =~= start + assigned_by(statements@, i as int, local));
        }
        b = b + 1;
    }
    out
}

fn operand_fits(o: &Operand, n: usize) -> (r: bool)
    ensures
        r == operand_in(*o, n as nat),
{
    match o.place() {
        Some(p) => p.local < n,
        None => true,
    }
}

fn operands_fit(args: &Vec<Operand>, n: usize) -> (r: bool)
    ensures
        r == forall|i: int| 0 <= i < args@.len() ==> operand_in(#[trigger] args@[i], n as nat),
{
    let mut k: usize = 0;
    while k < args.len()
        invariant
            k <= args@.len(),
            forall|j: int| 0 <= j < k ==> operand_in(#[trigger] args@[j], n as nat),
        decreases args@.len() - k,
    {
        if !operand_fits(&args[k], n) {
            assert(!operand_in(args@[k as int], n as nat));
            return false;
        }
        k = k + 1;
    }
    true
}

fn statement_fits(s: &Statement, n: usize) -> (r: bool)
    ensures
        r == statement_in(*s, n as nat),
{
    match s {
        Statement::Assign(p, rvalue) => p.local < n && match rvalue {
            Rvalue::Use(o) => operand_fits(o, n),
            Rvalue::Ref(q) => q.local < n,
            Rvalue::Other => true,
        },
        Statement::StorageDead(l) => *l < n,
        Statement::Other => true,
    }
}

fn terminator_fits(t: &Terminator, n: usize, blocks: usize) -> (r: bool)
    ensures
        r == terminator_in(*t, n as nat, blocks as nat),
{
    let mut i: usize = 0;
    while i < t.next.len()
        invariant
            i <= t.next@.len(),
            forall|k: int| 0 <= k < i ==> (#[trigger] t.next@[k]) < blocks,
        decreases t.next@.len() - i,
    {
        if t.next[i] >= blocks {
            return false;
        }
        i = i + 1;
    }
    match &t.kind {
        TermKind::Call { callee: _, args, dest } => dest.local < n && operands_fit(args, n),
        TermKind::Drop(p) => p.local < n,
        TermKind::Other => true,
    }
}

impl Body {
    /// Whether every name stands for a local or a block of the body.
    pub fn is_valid(&self) -> (r: bool)
        ensures
            r == self.wf(),
    {
        let n: usize = self.locals.len();
        let blocks: usize = self.blocks.len();
        if self.arg_count >= n {
            return false;
        }
        let mut b: usize = 0;
        while b < blocks
            invariant
                n == self.locals@.len(),
                blocks == self.blocks@.len(),
                b <= blocks,
                forall|k: int|
                    0 <= k < b ==> block_in(#[trigger] self.blocks@[k], n as nat, blocks as nat),
            decreases blocks - b,
        {
            let block = &self.blocks[b];
            let mut i: usize = 0;
            while i < block.statements.len()
                invariant
                    n == self.locals@.len(),
                    blocks == self.blocks@.len(),
                    b < blocks,
                    block == &self.blocks@[b as int],
                    i <= block.statements@.len(),
                    forall|k: int|
                        0 <= k < i ==> statement_in(#[trigger] block.statements@[k], n as nat),
                decreases block.statements@.len() - i,
            {
                if !statement_fits(&block.statements[i], n) {
                    assert(!block_in(self.blocks@[b as int], n as nat, blocks as nat));
                    return false;
                }
                i = i + 1;
            }
            if !terminator_fits(&block.terminator, n, blocks) {
                assert(!block_in(self.blocks@[b as int], n as nat, blocks as nat));
                return false;
            }
            b = b + 1;
        }
        true
    }
}

}
