//! From source text to the guarantee.

use vstd::prelude::*;

use crate::ast::{ItemV, StmtV};
use crate::frontend::lowering;
use crate::grammar::{lemma_item_end, lemma_list_end, lemma_pieces, lemma_stmt_end};
use crate::model::ProgramV;
use crate::parser::{
    is_at, is_word, lexed, parse_block, parse_fn, parse_foreign, parse_item, parse_items,
    parse_list, parse_lock, parse_stmt, parse_stmts, parsed, TkV, TokenV,
};
use crate::semantics::{circular, possible_wait, WaitV};
use crate::solver::{classes, verdict};
use crate::soundness::{
    names_locks, names_locks_in, program_names_locks, safe_programs_never_deadlock,
};
use crate::tables::{declared, tables_of};
use crate::text::Name;

verus! {

proof fn lemma_prefix_names(a: Seq<StmtV>, b: Seq<StmtV>, n: int)
    requires
        0 <= n <= a.len(),
        n <= b.len(),
        a.take(n) == b.take(n),
        names_locks(a, n),
    ensures
        names_locks(b, n),
    decreases n,
{
    if n > 0 {
        assert(a.take(n - 1) =~= a.take(n).take(n - 1));
        assert(b.take(n - 1) =~= b.take(n).take(n - 1));
        lemma_prefix_names(a, b, n - 1);
        assert(a[n - 1] == a.take(n)[n - 1]);
        assert(b[n - 1] == b.take(n)[n - 1]);
    }
}

proof fn lemma_block_names(toks: Seq<TokenV>, i: int, depth: nat)
    requires
        parse_block(toks, i, depth) is Ok,
    ensures
        ({
            let (b, j) = parse_block(toks, i, depth)->Ok_0;
            names_locks(b, b.len() as int)
        }),
    decreases toks.len() - i, 0nat,
{
    lemma_stmts_names(toks, i + 1, depth, Seq::empty());
}

proof fn lemma_stmts_names(toks: Seq<TokenV>, i: int, depth: nat, q: Seq<StmtV>)
    requires
        0 <= i,
        names_locks(q, q.len() as int),
        parse_stmts(toks, i, depth, q) is Ok,
    ensures
        ({
            let (b, j) = parse_stmts(toks, i, depth, q)->Ok_0;
            names_locks(b, b.len() as int)
        }),
    decreases toks.len() - i, 2nat,
{
    if !is_at(toks, i, TkV::RBrace) && i < toks.len() {
        let (s, j) = parse_stmt(toks, i, depth)->Ok_0;
        lemma_stmt_end(toks, i, depth);
        lemma_stmt_names(toks, i, depth);
        let q2 = q.push(s);
        let n = q.len() as int;
        assert(q2.take(n) =~= q.take(n));
        lemma_prefix_names(q, q2, n);
        assert(names_locks(q2, n + 1));
        lemma_stmts_names(toks, j, depth, q2);
    }
}

proof fn lemma_stmt_names(toks: Seq<TokenV>, i: int, depth: nat)
    requires
        parse_stmt(toks, i, depth) is Ok,
        0 <= i < toks.len(),
    ensures
        names_locks_in((parse_stmt(toks, i, depth)->Ok_0).0),
    decreases toks.len() - i, 1nat,
{
    let (s, k) = parse_stmt(toks, i, depth)->Ok_0;
    lemma_pieces(toks, i, depth);
    match s {
        StmtV::With { lock, line, body } => lemma_block_names(toks, i + 2, depth + 1),
        StmtV::Ordered { locks, line, body } => {
            let (_, j) = parse_list(toks, i + 2)->Ok_0;
            lemma_list_end(toks, i + 2);
            lemma_block_names(toks, j, depth + 1);
        },
        StmtV::Couple { class, line, body } => lemma_block_names(toks, i + 2, depth + 1),
        StmtV::Mask { body } => lemma_block_names(toks, i + 1, depth + 1),
        StmtV::Call { callee, args, line } => {},
    }
}

/// Every function names the locks of its `ordered` statements.
spec fn item_names(x: ItemV) -> bool {
    match x {
        ItemV::Func(f) => names_locks(f.body, f.body.len() as int),
        _ => true,
    }
}

proof fn lemma_item_names(toks: Seq<TokenV>, i: int)
    requires
        parse_item(toks, i) is Ok,
    ensures
        item_names((parse_item(toks, i)->Ok_0).0),
{
    reveal(parse_item);
    let (x, j) = parse_item(toks, i)->Ok_0;
    if is_word(toks, i, "lock"@) {
        reveal(parse_lock);
    } else if is_word(toks, i, "extern"@) {
        reveal(parse_foreign);
    } else if is_word(toks, i, "isr"@) {
        lemma_fn_names(toks, i + 1, true);
    } else {
        lemma_fn_names(toks, i, false);
    }
}

proof fn lemma_fn_names(toks: Seq<TokenV>, i: int, is_isr: bool)
    requires
        parse_fn(toks, i, is_isr) is Ok,
    ensures
        item_names((parse_fn(toks, i, is_isr)->Ok_0).0),
{
    reveal(parse_fn);
    let (_, l) = parse_list(toks, i + 2)->Ok_0;
    lemma_block_names(toks, l, 1);
}

proof fn lemma_items_names(toks: Seq<TokenV>, i: int, q: Seq<ItemV>)
    requires
        forall|k: int| 0 <= k < q.len() ==> item_names(#[trigger] q[k]),
        parse_items(toks, i, q) is Ok,
    ensures
        forall|k: int|
            0 <= k < parse_items(toks, i, q)->Ok_0.len() ==> item_names(
                #[trigger] parse_items(toks, i, q)->Ok_0[k],
            ),
    decreases toks.len() - i,
{
    if i < toks.len() {
        let (x, j) = parse_item(toks, i)->Ok_0;
        lemma_item_end(toks, i);
        lemma_item_names(toks, i);
        lemma_items_names(toks, j, q.push(x));
    }
}

proof fn lemma_declared_names(items: Seq<ItemV>, f: Name)
    requires
        forall|k: int| 0 <= k < items.len() ==> item_names(#[trigger] items[k]),
        declared(items).funcs.contains_key(f),
    ensures
        names_locks(
            declared(items).funcs[f].body,
            declared(items).funcs[f].body.len() as int,
        ),
    decreases items.len(),
{
    if items.len() > 0 {
        let r = items.drop_last();
        assert forall|k: int| 0 <= k < r.len() implies item_names(#[trigger] r[k]) by {
            assert(r[k] == items[k]);
        }
        assert(item_names(items[items.len() - 1]));
        let t = declared(r);
        match items.last() {
            ItemV::Func(g) => {
                if f != g.name {
                    assert(t.funcs.contains_key(f));
                    lemma_declared_names(r, f);
                }
            },
            _ => {
                assert(declared(items).funcs == t.funcs);
                lemma_declared_names(r, f);
            },
        }
    }
}

/// The guarantee: if the source parses, is lowered without errors and completely,
/// and its ordering graph is acyclic, then however its tasks and interrupt
/// handlers interleave, no set of them ever waits in a circle.
pub proof fn safe_sources_never_deadlock(
    src: Name,
    items: Seq<ItemV>,
    file: Name,
    p: ProgramV,
    ring: Seq<WaitV>,
)
    requires
        parsed(src) == Ok::<Seq<ItemV>, Name>(items),
        lowering(items, file) == Ok::<ProgramV, Seq<Name>>(p),
        p.incomplete is None,
        verdict(p.events) is DeadlockFree,
        classes(p.events).len() <= usize::MAX,
        forall|i: int|
            0 <= i < ring.len() ==> possible_wait(tables_of(items), #[trigger] ring[i]),
    ensures
        !circular(ring),
{
    let toks = lexed(src, 0, 1, Seq::empty())->Ok_0;
    lemma_items_names(toks, 0, Seq::empty());
    assert forall|k: int| 0 <= k < items.len() implies item_names(#[trigger] items[k]) by {
        assert(parse_items(toks, 0, Seq::empty())->Ok_0[k] == items[k]);
    }
    assert(program_names_locks(tables_of(items))) by {
        assert forall|f: Name| #[trigger] tables_of(items).funcs.contains_key(
            f,
        ) implies names_locks(
            tables_of(items).funcs[f].body,
            tables_of(items).funcs[f].body.len() as int,
        ) by {
            lemma_declared_names(items, f);
        }
    }
    safe_programs_never_deadlock(items, file, p, ring);
}

}
