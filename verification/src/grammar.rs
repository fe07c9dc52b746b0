//! How syntax trees are spelled.
//!
//! A syntax tree that parsing returns accounts for every token of its source:
//! spelled out, it gives the same tokens back, and the line of every statement
//! is that of its first token.

use vstd::prelude::*;

use crate::ast::{FuncV, ItemV, StmtV};
use crate::parser::{
    is_at, is_word, line_at, more_idents, parse_block, parse_fn, parse_foreign, parse_ident,
    parse_idents, parse_item, parse_items, parse_list, parse_lock, parse_stmt, parse_stmts, TkV,
    TokenV,
};
use crate::text::Name;

verus! {

/// A token of a spelling; where the line matters, it is given.
pub struct Letter {
    pub tk: TkV,
    pub line: Option<nat>,
}

/// A token whose line does not matter.
pub open spec fn plain(tk: TkV) -> Letter {
    Letter { tk, line: None }
}

/// A word whose line does not matter.
pub open spec fn word(s: Name) -> Letter {
    plain(TkV::Ident(s))
}

/// The tokens from `i` on are those of `q`.
#[verifier::opaque]
pub open spec fn spelled_at(toks: Seq<TokenV>, i: int, q: Seq<Letter>) -> bool {
    &&& 0 <= i
    &&& i + q.len() <= toks.len()
    &&& forall|k: int|
        0 <= k < q.len() ==> toks[i + k].tk == (#[trigger] q[k]).tk && (q[k].line is Some
            ==> toks[i + k].line == q[k].line->0)
}

/// Identifiers separated by commas.
pub open spec fn spell_idents(q: Seq<Name>) -> Seq<Letter>
    decreases q.len(),
{
    if q.len() == 0 {
        Seq::empty()
    } else if q.len() == 1 {
        seq![word(q[0])]
    } else {
        spell_idents(q.drop_last()).push(plain(TkV::Comma)).push(word(q.last()))
    }
}

/// A parenthesised list of identifiers.
pub open spec fn spell_list(q: Seq<Name>) -> Seq<Letter> {
    seq![plain(TkV::LParen)] + spell_idents(q) + seq![plain(TkV::RParen)]
}

/// A block.
pub open spec fn spell_block(b: Seq<StmtV>) -> Seq<Letter>
    decreases b, b.len() + 1,
{
    seq![plain(TkV::LBrace)] + spell_stmts(b, b.len() as int) + seq![plain(TkV::RBrace)]
}

/// The first `n` statements of a block.
pub open spec fn spell_stmts(b: Seq<StmtV>, n: int) -> Seq<Letter>
    decreases b, n,
{
    if 0 < n <= b.len() {
        spell_stmts(b, n - 1) + spell_stmt(b[n - 1])
    } else {
        Seq::empty()
    }
}

/// A statement.
pub open spec fn spell_stmt(s: StmtV) -> Seq<Letter>
    decreases s,
{
    match s {
        StmtV::With { lock, line, body } => seq![
            Letter { tk: TkV::Ident("with"@), line: Some(line) },
            word(lock),
        ] + spell_block(body),
        StmtV::Ordered { locks, line, body } => seq![
            Letter { tk: TkV::Ident("with"@), line: Some(line) },
            word("ordered"@),
        ] + spell_list(locks) + spell_block(body),
        StmtV::Couple { class, line, body } => seq![
            Letter { tk: TkV::Ident("couple"@), line: Some(line) },
            word(class),
        ] + spell_block(body),
        StmtV::Mask { body } => seq![word("mask"@)] + spell_block(body),
        StmtV::Call { callee, args, line } => seq![
            Letter { tk: TkV::Ident(callee), line: Some(line) },
        ] + spell_list(args),
    }
}

/// An item.
#[verifier::opaque]
pub open spec fn spell_item(x: ItemV) -> Seq<Letter> {
    match x {
        ItemV::Lock { name, class } => seq![
            word("lock"@),
            word(name),
            plain(TkV::Colon),
            word(class),
        ],
        ItemV::Func(f) => if f.is_isr {
            seq![word("isr"@)] + spell_fn(f)
        } else {
            spell_fn(f)
        },
        ItemV::Extern { name, acquires } => if acquires.len() == 0 {
            seq![word("extern"@), word("fn"@), word(name)]
        } else {
            seq![word("extern"@), word("fn"@), word(name), word("acquires"@)] + spell_idents(
                acquires,
            )
        },
    }
}

/// A function, from the word `fn` on.
pub open spec fn spell_fn(f: FuncV) -> Seq<Letter> {
    seq![word("fn"@), word(f.name)] + spell_list(f.params) + spell_block(f.body)
}

/// A program.
pub open spec fn spell_items(q: Seq<ItemV>) -> Seq<Letter>
    decreases q.len(),
{
    if q.len() == 0 {
        Seq::empty()
    } else {
        spell_items(q.drop_last()) + spell_item(q.last())
    }
}

proof fn lemma_spelled_join(toks: Seq<TokenV>, i: int, a: Seq<Letter>, b: Seq<Letter>)
    requires
        spelled_at(toks, i, a),
        spelled_at(toks, i + a.len(), b),
    ensures
        spelled_at(toks, i, a + b),
{
    reveal(spelled_at);
    assert forall|k: int| 0 <= k < (a + b).len() implies toks[i + k].tk == (#[trigger] (a + b)[k]).tk
        && ((a + b)[k].line is Some ==> toks[i + k].line == (a + b)[k].line->0) by {
        if k < a.len() {
            assert((a + b)[k] == a[k]);
        } else {
            let l = k - a.len();
            assert((a + b)[k] == b[l]);
            assert(toks[i + a.len() + l].tk == b[l].tk);
        }
    }
}

proof fn lemma_spelled_one(toks: Seq<TokenV>, i: int, t: TkV)
    requires
        is_at(toks, i, t),
    ensures
        spelled_at(toks, i, seq![plain(t)]),
{
    reveal(spelled_at);
}

proof fn lemma_spelled_end(toks: Seq<TokenV>, i: int, q: Seq<Letter>)
    requires
        spelled_at(toks, i, q),
    ensures
        0 <= i,
        i + q.len() <= toks.len(),
{
    reveal(spelled_at);
}

proof fn lemma_spelled_none(toks: Seq<TokenV>, i: int)
    requires
        0 <= i <= toks.len(),
    ensures
        spelled_at(toks, i, Seq::empty()),
{
    reveal(spelled_at);
}

proof fn lemma_spelled_first(toks: Seq<TokenV>, i: int, t: TkV)
    requires
        is_at(toks, i, t),
    ensures
        spelled_at(toks, i, seq![Letter { tk: t, line: Some(line_at(toks, i)) }]),
{
    reveal(spelled_at);
}

proof fn lemma_spelled_two(toks: Seq<TokenV>, i: int, t: TkV, u: TkV)
    requires
        is_at(toks, i, t),
        is_at(toks, i + 1, u),
    ensures
        spelled_at(
            toks,
            i,
            seq![Letter { tk: t, line: Some(line_at(toks, i)) }, plain(u)],
        ),
        spelled_at(toks, i, seq![plain(t), plain(u)]),
{
    reveal(spelled_at);
}

proof fn lemma_spelled_four(toks: Seq<TokenV>, i: int, a: TkV, b: TkV, c: TkV, d: TkV)
    requires
        is_at(toks, i, a),
        is_at(toks, i + 1, b),
        is_at(toks, i + 2, c),
    ensures
        spelled_at(toks, i, seq![plain(a), plain(b), plain(c)]),
        is_at(toks, i + 3, d) ==> spelled_at(
            toks,
            i,
            seq![plain(a), plain(b), plain(c), plain(d)],
        ),
{
    reveal(spelled_at);
}

proof fn lemma_more_idents(toks: Seq<TokenV>, start: int, i: int, q: Seq<Name>)
    requires
        q.len() > 0,
        start + spell_idents(q).len() == i,
        spelled_at(toks, start, spell_idents(q)),
        more_idents(toks, i, q) is Ok,
    ensures
        ({
            let (r, j) = more_idents(toks, i, q)->Ok_0;
            &&& r.len() > 0
            &&& start + spell_idents(r).len() == j
            &&& spelled_at(toks, start, spell_idents(r))
        }),
    decreases toks.len() - i,
{
    if is_at(toks, i, TkV::Comma) {
        let (x, j) = parse_ident(toks, i + 1)->Ok_0;
        let q2 = q.push(x);
        assert(q2.drop_last() =~= q);
        lemma_spelled_one(toks, i, TkV::Comma);
        lemma_spelled_one(toks, i + 1, TkV::Ident(x));
        lemma_spelled_join(toks, start, spell_idents(q), seq![plain(TkV::Comma)]);
        lemma_spelled_join(
            toks,
            start,
            spell_idents(q) + seq![plain(TkV::Comma)],
            seq![word(x)],
        );
        assert(spell_idents(q2) =~= spell_idents(q) + seq![plain(TkV::Comma)] + seq![word(x)]);
        lemma_more_idents(toks, start, j, q2);
    }
}

proof fn lemma_idents(toks: Seq<TokenV>, i: int)
    requires
        parse_idents(toks, i) is Ok,
    ensures
        ({
            let (r, j) = parse_idents(toks, i)->Ok_0;
            &&& r.len() > 0
            &&& i + spell_idents(r).len() == j
            &&& spelled_at(toks, i, spell_idents(r))
        }),
{
    let (x, j) = parse_ident(toks, i)->Ok_0;
    lemma_spelled_one(toks, i, TkV::Ident(x));
    assert(spell_idents(seq![x]) =~= seq![word(x)]);
    lemma_more_idents(toks, i, j, seq![x]);
}

proof fn lemma_list(toks: Seq<TokenV>, i: int)
    requires
        parse_list(toks, i) is Ok,
    ensures
        ({
            let (r, j) = parse_list(toks, i)->Ok_0;
            &&& i + spell_list(r).len() == j
            &&& spelled_at(toks, i, spell_list(r))
        }),
{
    let (r, j) = parse_list(toks, i)->Ok_0;
    lemma_spelled_one(toks, i, TkV::LParen);
    lemma_spelled_one(toks, j - 1, TkV::RParen);
    let open = seq![plain(TkV::LParen)];
    if is_at(toks, i + 1, TkV::RParen) {
        assert(spell_list(r) =~= open + seq![plain(TkV::RParen)]);
        lemma_spelled_join(toks, i, open, seq![plain(TkV::RParen)]);
    } else {
        lemma_idents(toks, i + 1);
        lemma_spelled_join(toks, i, open, spell_idents(r));
        lemma_spelled_join(toks, i, open + spell_idents(r), seq![plain(TkV::RParen)]);
    }
}

proof fn lemma_block(toks: Seq<TokenV>, i: int, depth: nat)
    requires
        parse_block(toks, i, depth) is Ok,
    ensures
        ({
            let (b, j) = parse_block(toks, i, depth)->Ok_0;
            &&& i + spell_block(b).len() == j
            &&& spelled_at(toks, i, spell_block(b))
        }),
    decreases toks.len() - i, 0nat,
{
    lemma_spelled_one(toks, i, TkV::LBrace);
    lemma_spelled_none(toks, i + 1);
    lemma_stmts(toks, i + 1, depth, i + 1, Seq::empty());
    let (b, j) = parse_block(toks, i, depth)->Ok_0;
    lemma_spelled_one(toks, j - 1, TkV::RBrace);
    let n = b.len() as int;
    lemma_spelled_join(toks, i, seq![plain(TkV::LBrace)], spell_stmts(b, n));
    lemma_spelled_join(
        toks,
        i,
        seq![plain(TkV::LBrace)] + spell_stmts(b, n),
        seq![plain(TkV::RBrace)],
    );
}

proof fn lemma_spell_stmts_prefix(a: Seq<StmtV>, b: Seq<StmtV>, n: int)
    requires
        0 <= n <= a.len(),
        n <= b.len(),
        a.take(n) == b.take(n),
    ensures
        spell_stmts(a, n) == spell_stmts(b, n),
    decreases n,
{
    if n > 0 {
        assert(a.take(n - 1) =~= a.take(n).take(n - 1));
        assert(b.take(n - 1) =~= b.take(n).take(n - 1));
        lemma_spell_stmts_prefix(a, b, n - 1);
        assert(a[n - 1] == a.take(n)[n - 1]);
        assert(b[n - 1] == b.take(n)[n - 1]);
        assert(spell_stmts(a, n) == spell_stmts(a, n - 1) + spell_stmt(a[n - 1]));
        assert(spell_stmts(b, n) == spell_stmts(b, n - 1) + spell_stmt(b[n - 1]));
    }
}

proof fn lemma_stmts(toks: Seq<TokenV>, i: int, depth: nat, start: int, q: Seq<StmtV>)
    requires
        start + spell_stmts(q, q.len() as int).len() == i,
        spelled_at(toks, start, spell_stmts(q, q.len() as int)),
        parse_stmts(toks, i, depth, q) is Ok,
    ensures
        ({
            let (b, j) = parse_stmts(toks, i, depth, q)->Ok_0;
            let n = b.len() as int;
            &&& start + spell_stmts(b, n).len() == j - 1
            &&& spelled_at(toks, start, spell_stmts(b, n))
            &&& is_at(toks, j - 1, TkV::RBrace)
        }),
    decreases toks.len() - i, 2nat,
{
    if !is_at(toks, i, TkV::RBrace) {
        let (s, j) = parse_stmt(toks, i, depth)->Ok_0;
        lemma_stmt(toks, i, depth);
        let q2 = q.push(s);
        let n = q.len() as int;
        assert(q2.take(n) =~= q.take(n));
        lemma_spell_stmts_prefix(q, q2, n);
        assert(spell_stmts(q2, n + 1) == spell_stmts(q, n) + spell_stmt(s));
        lemma_spelled_join(toks, start, spell_stmts(q, n), spell_stmt(s));
        lemma_stmts(toks, j, depth, start, q2);
    }
}

/// The pieces that the statement `s` from `i` to `k` was parsed from.
pub open spec fn pieces(toks: Seq<TokenV>, i: int, depth: nat, s: StmtV, k: int) -> bool {
    match s {
        StmtV::With { lock, line, body } => {
            &&& is_word(toks, i, "with"@)
            &&& line == line_at(toks, i)
            &&& is_word(toks, i + 1, lock)
            &&& parse_block(toks, i + 2, depth + 1) == Ok::<(Seq<StmtV>, int), Name>((body, k))
        },
        StmtV::Ordered { locks, line, body } => {
            &&& is_word(toks, i, "with"@)
            &&& line == line_at(toks, i)
            &&& is_word(toks, i + 1, "ordered"@)
            &&& locks.len() > 0
            &&& parse_list(toks, i + 2) is Ok
            &&& locks == (parse_list(toks, i + 2)->Ok_0).0
            &&& parse_block(toks, (parse_list(toks, i + 2)->Ok_0).1, depth + 1) == Ok::<
                (Seq<StmtV>, int),
                Name,
            >((body, k))
        },
        StmtV::Couple { class, line, body } => {
            &&& is_word(toks, i, "couple"@)
            &&& line == line_at(toks, i)
            &&& is_word(toks, i + 1, class)
            &&& parse_block(toks, i + 2, depth + 1) == Ok::<(Seq<StmtV>, int), Name>((body, k))
        },
        StmtV::Mask { body } => {
            &&& is_word(toks, i, "mask"@)
            &&& parse_block(toks, i + 1, depth + 1) == Ok::<(Seq<StmtV>, int), Name>((body, k))
        },
        StmtV::Call { callee, args, line } => {
            &&& is_word(toks, i, callee)
            &&& line == line_at(toks, i)
            &&& parse_list(toks, i + 1) == Ok::<(Seq<Name>, int), Name>((args, k))
        },
    }
}

/// A statement is parsed from its pieces.
pub proof fn lemma_pieces(toks: Seq<TokenV>, i: int, depth: nat)
    requires
        parse_stmt(toks, i, depth) is Ok,
        0 <= i < toks.len(),
    ensures
        ({
            let (s, k) = parse_stmt(toks, i, depth)->Ok_0;
            pieces(toks, i, depth, s, k)
        }),
{
    if (parse_stmt(toks, i, depth)->Ok_0).0 is Ordered {
        lemma_list_end(toks, i + 2);
    }
}

proof fn lemma_spelled_headed(
    toks: Seq<TokenV>,
    i: int,
    t: TkV,
    u: TkV,
    line: nat,
    rest: Seq<Letter>,
)
    requires
        is_at(toks, i, t),
        is_at(toks, i + 1, u),
        line == line_at(toks, i),
        spelled_at(toks, i + 2, rest),
    ensures
        ({
            let q = seq![Letter { tk: t, line: Some(line) }, plain(u)] + rest;
            spelled_at(toks, i, q) && q.len() == rest.len() + 2
        }),
{
    let head = seq![Letter { tk: t, line: Some(line) }, plain(u)];
    lemma_spelled_two(toks, i, t, u);
    lemma_spelled_join(toks, i, head, rest);
}

proof fn lemma_ordered(
    toks: Seq<TokenV>,
    i: int,
    line: nat,
    locks: Seq<Name>,
    body: Seq<StmtV>,
)
    requires
        is_word(toks, i, "with"@),
        is_word(toks, i + 1, "ordered"@),
        line == line_at(toks, i),
        spelled_at(toks, i + 2, spell_list(locks)),
        spelled_at(toks, i + 2 + spell_list(locks).len(), spell_block(body)),
    ensures
        ({
            let q = spell_stmt(StmtV::Ordered { locks, line, body });
            spelled_at(toks, i, q) && q.len() == spell_list(locks).len() + spell_block(body).len()
                + 2
        }),
{
    let t = TkV::Ident("with"@);
    let u = TkV::Ident("ordered"@);
    lemma_spelled_headed(toks, i, t, u, line, spell_list(locks));
    let head = seq![Letter { tk: t, line: Some(line) }, plain(u)] + spell_list(locks);
    lemma_spelled_join(toks, i, head, spell_block(body));
}

proof fn lemma_stmt(toks: Seq<TokenV>, i: int, depth: nat)
    requires
        parse_stmt(toks, i, depth) is Ok,
        0 <= i < toks.len(),
    ensures
        ({
            let (s, j) = parse_stmt(toks, i, depth)->Ok_0;
            &&& i < j <= toks.len()
            &&& i + spell_stmt(s).len() == j
            &&& spelled_at(toks, i, spell_stmt(s))
        }),
    decreases toks.len() - i, 1nat,
{
    let (s, k) = parse_stmt(toks, i, depth)->Ok_0;
    lemma_pieces(toks, i, depth);
    match s {
        StmtV::With { lock, line, body } => {
            lemma_block(toks, i + 2, depth + 1);
            let (t, u) = (TkV::Ident("with"@), TkV::Ident(lock));
            lemma_spelled_headed(toks, i, t, u, line, spell_block(body));
        },
        StmtV::Ordered { locks, line, body } => {
            lemma_list(toks, i + 2);
            let (_, j) = parse_list(toks, i + 2)->Ok_0;
            lemma_list_end(toks, i + 2);
            lemma_block(toks, j, depth + 1);
            lemma_ordered(toks, i, line, locks, body);
        },
        StmtV::Couple { class, line, body } => {
            lemma_block(toks, i + 2, depth + 1);
            let (t, u) = (TkV::Ident("couple"@), TkV::Ident(class));
            lemma_spelled_headed(toks, i, t, u, line, spell_block(body));
        },
        StmtV::Mask { body } => {
            lemma_block(toks, i + 1, depth + 1);
            lemma_spelled_one(toks, i, TkV::Ident("mask"@));
            lemma_spelled_join(toks, i, seq![word("mask"@)], spell_block(body));
        },
        StmtV::Call { callee, args, line } => {
            lemma_list(toks, i + 1);
            let head = seq![Letter { tk: TkV::Ident(callee), line: Some(line) }];
            lemma_spelled_first(toks, i, TkV::Ident(callee));
            lemma_spelled_join(toks, i, head, spell_list(args));
        },
    }
    lemma_spelled_end(toks, i, spell_stmt(s));
}

proof fn lemma_fn(toks: Seq<TokenV>, i: int, is_isr: bool)
    requires
        parse_fn(toks, i, is_isr) is Ok,
    ensures
        ({
            let (x, j) = parse_fn(toks, i, is_isr)->Ok_0;
            &&& x is Func
            &&& x->Func_0.is_isr == is_isr
            &&& i + spell_fn(x->Func_0).len() == j
            &&& spelled_at(toks, i, spell_fn(x->Func_0))
        }),
{
    reveal(parse_fn);
    let (x, m) = parse_fn(toks, i, is_isr)->Ok_0;
    let f = x->Func_0;
    let head = seq![word("fn"@), word(f.name)];
    lemma_spelled_two(toks, i, TkV::Ident("fn"@), TkV::Ident(f.name));
    lemma_list(toks, i + 2);
    let (_, l) = parse_list(toks, i + 2)->Ok_0;
    lemma_block(toks, l, 1);
    lemma_spelled_join(toks, i, head, spell_list(f.params));
    lemma_spelled_join(toks, i, head + spell_list(f.params), spell_block(f.body));
}

proof fn lemma_lock(toks: Seq<TokenV>, i: int)
    requires
        is_word(toks, i, "lock"@),
        parse_lock(toks, i) is Ok,
    ensures
        ({
            let (x, j) = parse_lock(toks, i)->Ok_0;
            &&& i + spell_item(x).len() == j
            &&& spelled_at(toks, i, spell_item(x))
        }),
{
    reveal(parse_lock);
    reveal(spell_item);
    let (x, j) = parse_lock(toks, i)->Ok_0;
    lemma_spelled_four(
        toks,
        i,
        TkV::Ident("lock"@),
        TkV::Ident(x->Lock_name),
        TkV::Colon,
        TkV::Ident(x->class),
    );
}

proof fn lemma_foreign(toks: Seq<TokenV>, i: int)
    requires
        is_word(toks, i, "extern"@),
        parse_foreign(toks, i) is Ok,
    ensures
        ({
            let (x, j) = parse_foreign(toks, i)->Ok_0;
            &&& i + spell_item(x).len() == j
            &&& spelled_at(toks, i, spell_item(x))
        }),
{
    reveal(parse_foreign);
    reveal(spell_item);
    let (x, j) = parse_foreign(toks, i)->Ok_0;
    let (name, k) = parse_ident(toks, i + 2)->Ok_0;
    lemma_spelled_four(
        toks,
        i,
        TkV::Ident("extern"@),
        TkV::Ident("fn"@),
        TkV::Ident(name),
        TkV::Ident("acquires"@),
    );
    if is_word(toks, k, "acquires"@) {
        lemma_idents(toks, k + 1);
        let head = seq![word("extern"@), word("fn"@), word(name), word("acquires"@)];
        lemma_spelled_join(toks, i, head, spell_idents(x->acquires));
    }
}

proof fn lemma_isr(toks: Seq<TokenV>, i: int)
    requires
        is_word(toks, i, "isr"@),
        parse_fn(toks, i + 1, true) is Ok,
    ensures
        ({
            let (x, j) = parse_fn(toks, i + 1, true)->Ok_0;
            &&& i + spell_item(x).len() == j
            &&& spelled_at(toks, i, spell_item(x))
        }),
{
    reveal(spell_item);
    let (x, j) = parse_fn(toks, i + 1, true)->Ok_0;
    lemma_fn(toks, i + 1, true);
    lemma_spelled_one(toks, i, TkV::Ident("isr"@));
    lemma_spelled_join(toks, i, seq![word("isr"@)], spell_fn(x->Func_0));
}

proof fn lemma_item_spells(x: ItemV)
    ensures
        spell_item(x).len() > 0,
{
    reveal(spell_item);
}

proof fn lemma_item(toks: Seq<TokenV>, i: int)
    requires
        parse_item(toks, i) is Ok,
    ensures
        ({
            let (x, j) = parse_item(toks, i)->Ok_0;
            &&& i < j <= toks.len()
            &&& i + spell_item(x).len() == j
            &&& spelled_at(toks, i, spell_item(x))
        }),
{
    reveal(parse_item);
    let (x, j) = parse_item(toks, i)->Ok_0;
    if is_word(toks, i, "lock"@) {
        lemma_lock(toks, i);
    } else if is_word(toks, i, "extern"@) {
        lemma_foreign(toks, i);
    } else if is_word(toks, i, "isr"@) {
        lemma_isr(toks, i);
    } else {
        lemma_fn(toks, i, false);
        reveal(spell_item);
    }
    lemma_item_spells(x);
    lemma_spelled_end(toks, i, spell_item(x));
}

proof fn lemma_items(toks: Seq<TokenV>, i: int, q: Seq<ItemV>)
    requires
        0 <= i <= toks.len(),
        spell_items(q).len() == i,
        spelled_at(toks, 0, spell_items(q)),
        parse_items(toks, i, q) is Ok,
    ensures
        spell_items(parse_items(toks, i, q)->Ok_0).len() == toks.len(),
        spelled_at(toks, 0, spell_items(parse_items(toks, i, q)->Ok_0)),
    decreases toks.len() - i,
{
    if i < toks.len() {
        let (x, j) = parse_item(toks, i)->Ok_0;
        lemma_item(toks, i);
        let q2 = q.push(x);
        assert(q2.drop_last() =~= q);
        lemma_spelled_join(toks, 0, spell_items(q), spell_item(x));
        lemma_items(toks, j, q2);
    }
}

/// What parsing returns spells the tokens it was parsed from: none is left over,
/// none is passed over, and every statement bears the line of its first token.
pub proof fn parse_accounts_for_every_token(toks: Seq<TokenV>, items: Seq<ItemV>)
    requires
        parse_items(toks, 0, Seq::empty()) == Ok::<Seq<ItemV>, Name>(items),
    ensures
        spell_items(items).len() == toks.len(),
        spelled_at(toks, 0, spell_items(items)),
{
    lemma_spelled_none(toks, 0);
    lemma_items(toks, 0, Seq::empty());
}

/// A list of identifiers takes tokens.
pub proof fn lemma_list_end(toks: Seq<TokenV>, i: int)
    requires
        parse_list(toks, i) is Ok,
    ensures
        i < (parse_list(toks, i)->Ok_0).1 <= toks.len(),
{
    let (r, j) = parse_list(toks, i)->Ok_0;
    lemma_list(toks, i);
    lemma_spelled_end(toks, i, spell_list(r));
}

/// A statement takes tokens.
pub proof fn lemma_stmt_end(toks: Seq<TokenV>, i: int, depth: nat)
    requires
        parse_stmt(toks, i, depth) is Ok,
        0 <= i < toks.len(),
    ensures
        i < (parse_stmt(toks, i, depth)->Ok_0).1 <= toks.len(),
{
    lemma_stmt(toks, i, depth);
}

/// An item takes tokens.
pub proof fn lemma_item_end(toks: Seq<TokenV>, i: int)
    requires
        parse_item(toks, i) is Ok,
    ensures
        i < (parse_item(toks, i)->Ok_0).1 <= toks.len(),
{
    lemma_item(toks, i);
}

}
