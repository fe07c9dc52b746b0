//! Abstract syntax of the surface language.
//!
//! Functions may take function-valued parameters (callbacks), so held-sets
//! propagate through abstraction and not just through direct calls:
//!
//! ```text
//! lock table : Table
//! lock row   : Row
//!
//! fn with_table_locked(body) {   // `body` is a function-valued parameter
//!     with table {
//!         body()                 // calling the callback while holding Table
//!     }
//! }
//!
//! fn lock_a_row() { with row { } }
//!
//! fn import() { with_table_locked(lock_a_row) }   // pass a function as the callback
//! ```

use vstd::prelude::*;

use crate::text::{clone_names, names, Name};

verus! {

#[derive(Debug)]
pub enum Item {
    /// `lock <name> : <class>`
    Lock { name: String, class: String },
    /// `fn <name>(<params>) { .. }`
    Func(Func),
    /// `extern fn <name> [acquires <Class>, ..]`: a foreign function whose body
    /// cannot be seen, but whose lock-acquisition contract is declared: it may
    /// acquire the listed classes, nested in that order.
    Extern { name: String, acquires: Vec<String> },
}

#[derive(Debug)]
pub struct Func {
    pub name: String,
    /// Function-valued parameter names (callbacks).
    pub params: Vec<String>,
    pub body: Vec<Stmt>,
    /// True for `isr fn`, an interrupt handler. Its body runs holding the CPU
    /// (it can preempt tasks) with interrupts masked (run-to-completion).
    pub is_isr: bool,
}

#[derive(Debug)]
pub enum Stmt {
    /// `with <lock> { .. }`: hold one lock for the block.
    With { lock: String, line: usize, body: Vec<Stmt> },
    /// `with ordered(<lock>, ..) { .. }`: acquire same-class locks in a
    /// defined total order, as one combined acquisition.
    Ordered { locks: Vec<String>, line: usize, body: Vec<Stmt> },
    /// `<callee>(<args>)`: a call. `callee` may be a top-level function or a
    /// function-valued parameter in scope; `args` are function or parameter
    /// names bound positionally to the callee's parameters.
    Call { callee: String, args: Vec<String>, line: usize },
    /// `couple <Class> { .. }`: assert that, within the block, acquisitions of
    /// `<Class>` form a monotonic hand-over-hand chain (lock coupling), so
    /// same-class acquisitions of that class are safe and do not self-edge.
    /// Cross-class edges, and edges against a same-class lock already held
    /// *outside* the couple, are still enforced.
    Couple { class: String, line: usize, body: Vec<Stmt> },
    /// `mask { .. }`: interrupts are disabled within the block, so a lock held
    /// here cannot be preempted by an interrupt handler.
    Mask { body: Vec<Stmt> },
}

#[derive(Debug)]
pub struct Ast {
    pub items: Vec<Item>,
}

/// The mathematical value of a [`Stmt`].
pub enum StmtV {
    With { lock: Name, line: nat, body: Seq<StmtV> },
    Ordered { locks: Seq<Name>, line: nat, body: Seq<StmtV> },
    Call { callee: Name, args: Seq<Name>, line: nat },
    Couple { class: Name, line: nat, body: Seq<StmtV> },
    Mask { body: Seq<StmtV> },
}

/// The mathematical value of a [`Func`].
pub struct FuncV {
    pub name: Name,
    pub params: Seq<Name>,
    pub body: Seq<StmtV>,
    pub is_isr: bool,
}

/// The mathematical value of an [`Item`].
pub enum ItemV {
    Lock { name: Name, class: Name },
    Func(FuncV),
    Extern { name: Name, acquires: Seq<Name> },
}

/// The value of a statement.
pub open spec fn stmt_view(s: Stmt) -> StmtV
    decreases s,
{
    match s {
        Stmt::With { lock, line, body } => StmtV::With {
            lock: lock@,
            line: line as nat,
            body: block_view(body@),
        },
        Stmt::Ordered { locks, line, body } => StmtV::Ordered {
            locks: names(locks@),
            line: line as nat,
            body: block_view(body@),
        },
        Stmt::Call { callee, args, line } => StmtV::Call {
            callee: callee@,
            args: names(args@),
            line: line as nat,
        },
        Stmt::Couple { class, line, body } => StmtV::Couple {
            class: class@,
            line: line as nat,
            body: block_view(body@),
        },
        Stmt::Mask { body } => StmtV::Mask { body: block_view(body@) },
    }
}

/// The values of a sequence of statements.
pub open spec fn block_view(v: Seq<Stmt>) -> Seq<StmtV>
    decreases v,
{
    Seq::new(
        v.len(),
        |i: int|
            if 0 <= i < v.len() {
                stmt_view(v[i])
            } else {
                arbitrary()
            },
    )
}

impl View for Func {
    type V = FuncV;

    open spec fn view(&self) -> FuncV {
        FuncV {
            name: self.name@,
            params: names(self.params@),
            body: block_view(self.body@),
            is_isr: self.is_isr,
        }
    }
}

impl View for Item {
    type V = ItemV;

    open spec fn view(&self) -> ItemV {
        match *self {
            Item::Lock { name, class } => ItemV::Lock { name: name@, class: class@ },
            Item::Func(f) => ItemV::Func(f@),
            Item::Extern { name, acquires } => ItemV::Extern {
                name: name@,
                acquires: names(acquires@),
            },
        }
    }
}

/// The value of a syntax tree: its items.
impl View for Ast {
    type V = Seq<ItemV>;

    open spec fn view(&self) -> Seq<ItemV> {
        self.items@.map_values(|x: Item| x@)
    }
}

/// A copy of a block.
fn copy_block(stmts: &Vec<Stmt>) -> (r: Vec<Stmt>)
    ensures
        block_view(r@) == block_view(stmts@),
    decreases block_view(stmts@), 1nat,
{
    let ghost b = block_view(stmts@);
    let mut out: Vec<Stmt> = Vec::new();
    let mut i: usize = 0;
    while i < stmts.len()
        invariant
            b == block_view(stmts@),
            i <= stmts@.len(),
            out@.len() == i,
            forall|k: int| 0 <= k < i ==> stmt_view(#[trigger] out@[k]) == b[k],
        decreases stmts@.len() - i,
    {
        assert(b[i as int] == stmt_view(stmts@[i as int]));
        assert(decreases_to!(b => b[i as int]));
        out.push(copy_stmt(&stmts[i]));
        i = i + 1;
    }
    assert(block_view(out@) =~= b);
    out
}

/// A copy of a statement.
fn copy_stmt(s: &Stmt) -> (r: Stmt)
    ensures
        stmt_view(r) == stmt_view(*s),
    decreases stmt_view(*s), 0nat,
{
    let ghost v = stmt_view(*s);
    match s {
        Stmt::With { lock, line, body } => {
            assert(v->With_body == block_view(body@));
            assert(decreases_to!(v => v->With_body));
            Stmt::With { lock: lock.clone(), line: *line, body: copy_block(body) }
        },
        Stmt::Ordered { locks, line, body } => {
            assert(v->Ordered_body == block_view(body@));
            assert(decreases_to!(v => v->Ordered_body));
            Stmt::Ordered { locks: clone_names(locks), line: *line, body: copy_block(body) }
        },
        Stmt::Call { callee, args, line } => Stmt::Call {
            callee: callee.clone(),
            args: clone_names(args),
            line: *line,
        },
        Stmt::Couple { class, line, body } => {
            assert(v->Couple_body == block_view(body@));
            assert(decreases_to!(v => v->Couple_body));
            Stmt::Couple { class: class.clone(), line: *line, body: copy_block(body) }
        },
        Stmt::Mask { body } => {
            assert(v->Mask_body == block_view(body@));
            assert(decreases_to!(v => v->Mask_body));
            Stmt::Mask { body: copy_block(body) }
        },
    }
}

impl Clone for Stmt {
    fn clone(&self) -> (r: Stmt)
        ensures
            stmt_view(r) == stmt_view(*self),
    {
        copy_stmt(self)
    }
}

impl Clone for Func {
    fn clone(&self) -> (r: Func)
        ensures
            r@ == self@,
    {
        Func {
            name: self.name.clone(),
            params: clone_names(&self.params),
            body: copy_block(&self.body),
            is_isr: self.is_isr,
        }
    }
}

impl Clone for Item {
    fn clone(&self) -> (r: Item)
        ensures
            r@ == self@,
    {
        match self {
            Item::Lock { name, class } => Item::Lock { name: name.clone(), class: class.clone() },
            Item::Func(f) => Item::Func(f.clone()),
            Item::Extern { name, acquires } => Item::Extern {
                name: name.clone(),
                acquires: clone_names(acquires),
            },
        }
    }
}

impl Clone for Ast {
    fn clone(&self) -> (r: Ast)
        ensures
            r@ == self@,
    {
        let mut items: Vec<Item> = Vec::new();
        let mut i: usize = 0;
        while i < self.items.len()
            invariant
                i <= self.items@.len(),
                items@.len() == i,
                forall|k: int| 0 <= k < i ==> (#[trigger] items@[k])@ == self.items@[k]@,
            decreases self.items@.len() - i,
        {
            items.push(self.items[i].clone());
            i = i + 1;
        }
        let r = Ast { items };
        assert(r@ =~= self@);
        r
    }
}

}
