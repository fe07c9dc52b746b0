//! A syntax tree that is written out in the grammar is read back.

use vstd::prelude::*;

use crate::ast::{FuncV, ItemV, StmtV};
use crate::grammar::{
    plain, spell_block, spell_fn, spell_idents, spell_item, spell_items, spell_list, spell_stmt,
    spell_stmts, word, Letter,
};
use crate::parser::{
    is_at, is_word, is_word_char, lexed, line_at, line_end, more_idents, parse_block, parse_fn,
    parse_foreign, parse_idents, parse_item, parse_items, parse_list, parse_lock, parse_stmt,
    parse_stmts, parsed, word_end, TkV, TokenV, MAX_PARSE_DEPTH,
};
use crate::text::Name;
use crate::unicode::{is_blank, is_letter};

verus! {

/// An identifier: a letter or an underscore, followed by letters, numbers and
/// underscores.
pub open spec fn is_identifier(s: Name) -> bool {
    &&& s.len() > 0
    &&& is_letter(s[0]) || s[0] == '_'
    &&& !is_blank(s[0])
    &&& forall|k: int| 0 <= k < s.len() ==> is_word_char(#[trigger] s[k])
}

/// Every name is an identifier.
pub open spec fn all_identifiers(q: Seq<Name>) -> bool {
    forall|k: int| 0 <= k < q.len() ==> is_identifier(#[trigger] q[k])
}

/// The statement can be written down: its names are identifiers, no single lock
/// is called `ordered`, every `ordered` names a lock, and its blocks are nested
/// at most `room` deep.
pub open spec fn writable_stmt(s: StmtV, room: int) -> bool
    decreases s,
{
    match s {
        StmtV::With { lock, line, body } => is_identifier(lock) && lock != "ordered"@ && room > 0
            && writable_block(body, body.len() as int, room - 1),
        StmtV::Ordered { locks, line, body } => locks.len() > 0 && all_identifiers(locks) && room
            > 0 && writable_block(body, body.len() as int, room - 1),
        StmtV::Couple { class, line, body } => is_identifier(class) && room > 0
            && writable_block(body, body.len() as int, room - 1),
        StmtV::Mask { body } => room > 0 && writable_block(body, body.len() as int, room - 1),
        StmtV::Call { callee, args, line } => is_identifier(callee) && all_identifiers(args),
    }
}

/// The first `n` statements of a block can be written down.
pub open spec fn writable_block(b: Seq<StmtV>, n: int, room: int) -> bool
    decreases b, n,
{
    if 0 < n <= b.len() {
        writable_block(b, n - 1, room) && writable_stmt(b[n - 1], room)
    } else {
        true
    }
}

/// The item can be written down.
pub open spec fn writable_item(x: ItemV) -> bool {
    match x {
        ItemV::Lock { name, class } => is_identifier(name) && is_identifier(class),
        ItemV::Func(f) => is_identifier(f.name) && all_identifiers(f.params) && writable_block(
            f.body,
            f.body.len() as int,
            511,
        ),
        ItemV::Extern { name, acquires } => is_identifier(name) && all_identifiers(acquires),
    }
}

/// The program can be written down.
pub open spec fn writable(items: Seq<ItemV>) -> bool {
    forall|k: int| 0 <= k < items.len() ==> writable_item(#[trigger] items[k])
}

/// The statement whose first token is at `i`, with the lines of the tokens.
pub open spec fn relined_stmt(toks: Seq<TokenV>, i: int, s: StmtV) -> StmtV
    decreases s,
{
    match s {
        StmtV::With { lock, line, body } => StmtV::With {
            lock,
            line: line_at(toks, i),
            body: relined_block(toks, i + 3, body, body.len() as int),
        },
        StmtV::Ordered { locks, line, body } => StmtV::Ordered {
            locks,
            line: line_at(toks, i),
            body: relined_block(
                toks,
                i + 3 + spell_list(locks).len(),
                body,
                body.len() as int,
            ),
        },
        StmtV::Couple { class, line, body } => StmtV::Couple {
            class,
            line: line_at(toks, i),
            body: relined_block(toks, i + 3, body, body.len() as int),
        },
        StmtV::Mask { body } => StmtV::Mask {
            body: relined_block(toks, i + 2, body, body.len() as int),
        },
        StmtV::Call { callee, args, line } => StmtV::Call {
            callee,
            args,
            line: line_at(toks, i),
        },
    }
}

/// The first `n` statements of the block whose first statement starts at `i`,
/// with the lines of the tokens.
pub open spec fn relined_block(toks: Seq<TokenV>, i: int, b: Seq<StmtV>, n: int) -> Seq<StmtV>
    decreases b, n,
{
    if 0 < n <= b.len() {
        relined_block(toks, i, b, n - 1).push(
            relined_stmt(toks, i + spell_stmts(b, n - 1).len(), b[n - 1]),
        )
    } else {
        Seq::empty()
    }
}

/// The item whose first token is at `i`, with the lines of the tokens.
pub open spec fn relined_item(toks: Seq<TokenV>, i: int, x: ItemV) -> ItemV {
    match x {
        ItemV::Func(f) => {
            let at = i + 3 + spell_list(f.params).len() + if f.is_isr {
                1int
            } else {
                0int
            };
            ItemV::Func(
                FuncV { body: relined_block(toks, at, f.body, f.body.len() as int), ..f },
            )
        },
        _ => x,
    }
}

/// The program, with the lines of the tokens.
pub open spec fn relined(toks: Seq<TokenV>, items: Seq<ItemV>) -> Seq<ItemV>
    decreases items.len(),
{
    if items.len() == 0 {
        Seq::empty()
    } else {
        relined(toks, items.drop_last()).push(
            relined_item(toks, spell_items(items.drop_last()).len() as int, items.last()),
        )
    }
}

/// The tokens from `i` on are those of `q`, whatever their lines.
#[verifier::opaque]
pub open spec fn tokens_at(toks: Seq<TokenV>, i: int, q: Seq<Letter>) -> bool {
    &&& 0 <= i
    &&& i + q.len() <= toks.len()
    &&& forall|k: int| 0 <= k < q.len() ==> toks[i + k].tk == (#[trigger] q[k]).tk
}

/// From `i` the statement `x` is read, up to `k`.
#[verifier::opaque]
spec fn stmt_read(toks: Seq<TokenV>, i: int, depth: nat, x: StmtV, k: int) -> bool {
    parse_stmt(toks, i, depth) == Ok::<(StmtV, int), Name>((x, k))
}

/// From `i` the block `b` is read, up to `k`.
#[verifier::opaque]
spec fn block_read(toks: Seq<TokenV>, i: int, depth: nat, b: Seq<StmtV>, k: int) -> bool {
    parse_block(toks, i, depth) == Ok::<(Seq<StmtV>, int), Name>((b, k))
}

proof fn lemma_tokens_split(toks: Seq<TokenV>, i: int, a: Seq<Letter>, b: Seq<Letter>)
    requires
        tokens_at(toks, i, a + b),
    ensures
        tokens_at(toks, i, a),
        tokens_at(toks, i + a.len(), b),
{
    reveal(tokens_at);
    assert forall|k: int| 0 <= k < a.len() implies toks[i + k].tk == (#[trigger] a[k]).tk by {
        assert((a + b)[k] == a[k]);
    }
    assert forall|k: int| 0 <= k < b.len() implies toks[i + a.len() + k].tk == (
    #[trigger] b[k]).tk by {
        assert((a + b)[a.len() + k] == b[k]);
    }
}

proof fn lemma_token(toks: Seq<TokenV>, i: int, q: Seq<Letter>, k: int)
    requires
        tokens_at(toks, i, q),
        0 <= k < q.len(),
    ensures
        is_at(toks, i + k, q[k].tk),
{
    reveal(tokens_at);
}

proof fn lemma_idents_shape(q: Seq<Name>, k: int)
    requires
        0 <= k < q.len(),
    ensures
        spell_idents(q).len() == 2 * q.len() - 1,
        spell_idents(q)[2 * k] == word(q[k]),
        k + 1 < q.len() ==> spell_idents(q)[2 * k + 1] == plain(TkV::Comma),
    decreases q.len(),
{
    if q.len() > 1 {
        let r = q.drop_last();
        if k < r.len() {
            lemma_idents_shape(r, k);
            assert(r[k] == q[k]);
        } else {
            lemma_idents_shape(r, k - 1);
        }
    }
}

proof fn lemma_more_back(toks: Seq<TokenV>, i: int, q: Seq<Name>, k: int)
    requires
        tokens_at(toks, i, spell_idents(q)),
        1 <= k <= q.len(),
        !is_at(toks, i + 2 * q.len() - 1, TkV::Comma),
    ensures
        more_idents(toks, i + 2 * k - 1, q.take(k)) == Ok::<(Seq<Name>, int), Name>(
            (q, i + 2 * q.len() - 1),
        ),
    decreases q.len() - k,
{
    lemma_idents_shape(q, k - 1);
    if k < q.len() {
        lemma_token(toks, i, spell_idents(q), 2 * k - 1);
        lemma_idents_shape(q, k);
        lemma_token(toks, i, spell_idents(q), 2 * k);
        assert(q.take(k + 1) =~= q.take(k).push(q[k]));
        lemma_more_back(toks, i, q, k + 1);
    } else {
        assert(q.take(k) =~= q);
    }
}

proof fn lemma_idents_back(toks: Seq<TokenV>, i: int, q: Seq<Name>)
    requires
        tokens_at(toks, i, spell_idents(q)),
        q.len() > 0,
        !is_at(toks, i + spell_idents(q).len(), TkV::Comma),
    ensures
        parse_idents(toks, i) == Ok::<(Seq<Name>, int), Name>((q, i + spell_idents(q).len())),
{
    lemma_idents_shape(q, 0);
    lemma_token(toks, i, spell_idents(q), 0);
    assert(q.take(1) =~= seq![q[0]]);
    lemma_more_back(toks, i, q, 1);
}

proof fn lemma_list_back(toks: Seq<TokenV>, i: int, q: Seq<Name>)
    requires
        tokens_at(toks, i, spell_list(q)),
    ensures
        parse_list(toks, i) == Ok::<(Seq<Name>, int), Name>((q, i + spell_list(q).len())),
        is_at(toks, i, TkV::LParen),
        i + spell_list(q).len() <= toks.len(),
{
    let open = seq![plain(TkV::LParen)];
    let close = seq![plain(TkV::RParen)];
    lemma_tokens_split(toks, i, open + spell_idents(q), close);
    lemma_tokens_split(toks, i, open, spell_idents(q));
    lemma_token(toks, i, open, 0);
    let end = i + 1 + spell_idents(q).len();
    lemma_token(toks, end, close, 0);
    if q.len() > 0 {
        lemma_idents_shape(q, 0);
        lemma_token(toks, i + 1, spell_idents(q), 0);
        lemma_idents_back(toks, i + 1, q);
    } else {
        assert(q =~= Seq::empty());
    }
}

proof fn lemma_block_back(toks: Seq<TokenV>, i: int, depth: nat, b: Seq<StmtV>)
    requires
        tokens_at(toks, i, spell_block(b)),
        depth <= MAX_PARSE_DEPTH,
        writable_block(b, b.len() as int, MAX_PARSE_DEPTH - depth),
    ensures
        block_read(
            toks,
            i,
            depth,
            relined_block(toks, i + 1, b, b.len() as int),
            i + spell_block(b).len(),
        ),
        is_at(toks, i, TkV::LBrace),
    decreases b, b.len() + 1,
{
    let open = seq![plain(TkV::LBrace)];
    let close = seq![plain(TkV::RBrace)];
    let n = b.len() as int;
    let all = spell_stmts(b, n);
    lemma_tokens_split(toks, i, open + all, close);
    lemma_tokens_split(toks, i, open, all);
    lemma_token(toks, i, open, 0);
    lemma_token(toks, i + 1 + all.len(), close, 0);
    lemma_stmts_back(toks, i + 1, depth, b, 0);
    reveal(block_read);
}

proof fn lemma_stmts_prefix(b: Seq<StmtV>, n: int) -> (rest: Seq<Letter>)
    requires
        0 <= n <= b.len(),
    ensures
        spell_stmts(b, b.len() as int) == spell_stmts(b, n) + rest,
    decreases b.len() - n,
{
    if n == b.len() {
        assert(spell_stmts(b, n) + Seq::<Letter>::empty() =~= spell_stmts(b, n));
        Seq::empty()
    } else {
        let tail = lemma_stmts_prefix(b, n + 1);
        assert(spell_stmts(b, n + 1) == spell_stmts(b, n) + spell_stmt(b[n]));
        assert(spell_stmts(b, n) + spell_stmt(b[n]) + tail =~= spell_stmts(b, n) + (spell_stmt(b[n])
            + tail));
        spell_stmt(b[n]) + tail
    }
}

proof fn lemma_writable_at(b: Seq<StmtV>, n: int, room: int, k: int)
    requires
        writable_block(b, n, room),
        0 <= k < n <= b.len(),
    ensures
        writable_stmt(b[k], room),
    decreases n,
{
    if k < n - 1 {
        lemma_writable_at(b, n - 1, room, k);
    }
}

/// The statements of a block from number `n` on are read back; the block is
/// closed behind them.
proof fn lemma_stmts_back(toks: Seq<TokenV>, i: int, depth: nat, b: Seq<StmtV>, n: int)
    requires
        0 <= n <= b.len(),
        tokens_at(toks, i, spell_stmts(b, b.len() as int)),
        is_at(toks, i + spell_stmts(b, b.len() as int).len(), TkV::RBrace),
        depth <= MAX_PARSE_DEPTH,
        writable_block(b, b.len() as int, MAX_PARSE_DEPTH - depth),
    ensures
        parse_stmts(
            toks,
            i + spell_stmts(b, n).len(),
            depth,
            relined_block(toks, i, b, n),
        ) == Ok::<(Seq<StmtV>, int), Name>(
            (
                relined_block(toks, i, b, b.len() as int),
                i + spell_stmts(b, b.len() as int).len() + 1,
            ),
        ),
    decreases b, b.len() - n,
{
    if n < b.len() {
        let at = i + spell_stmts(b, n).len();
        let rest = lemma_stmts_prefix(b, n + 1);
        let done = spell_stmts(b, n);
        assert(spell_stmts(b, n + 1) == done + spell_stmt(b[n]));
        lemma_tokens_split(toks, i, done + spell_stmt(b[n]), rest);
        lemma_tokens_split(toks, i, done, spell_stmt(b[n]));
        lemma_writable_at(b, b.len() as int, MAX_PARSE_DEPTH - depth, n);
        lemma_stmt_back(toks, at, depth, b[n]);
        reveal(stmt_read);
        lemma_stmts_back(toks, i, depth, b, n + 1);
    }
}

proof fn lemma_words_differ()
    ensures
        "with"@ != "couple"@,
        "mask"@ != "couple"@,
        "with"@ != "mask"@,
        "lock"@ != "extern"@,
        "lock"@ != "isr"@,
        "lock"@ != "fn"@,
        "extern"@ != "isr"@,
        "extern"@ != "fn"@,
        "isr"@ != "fn"@,
        "acquires"@ != "lock"@,
        "acquires"@ != "extern"@,
        "acquires"@ != "isr"@,
        "acquires"@ != "fn"@,
{
    reveal_strlit("with");
    reveal_strlit("couple");
    reveal_strlit("mask");
    reveal_strlit("lock");
    reveal_strlit("extern");
    reveal_strlit("isr");
    reveal_strlit("fn");
    reveal_strlit("acquires");
    assert("with"@[0] != "mask"@[0]);
    assert("with"@[0] != "couple"@[0]);
    assert("mask"@[0] != "couple"@[0]);
    assert("lock"@[0] != "extern"@[0]);
    assert("lock"@[0] != "isr"@[0]);
    assert("lock"@[0] != "fn"@[0]);
    assert("extern"@[0] != "isr"@[0]);
    assert("extern"@[0] != "fn"@[0]);
    assert("isr"@[0] != "fn"@[0]);
    assert("acquires"@[0] != "lock"@[0]);
    assert("acquires"@[0] != "extern"@[0]);
    assert("acquires"@[0] != "isr"@[0]);
    assert("acquires"@[0] != "fn"@[0]);
}

proof fn lemma_two_and_block(toks: Seq<TokenV>, i: int, x: Letter, y: Letter, rest: Seq<Letter>)
    requires
        tokens_at(toks, i, seq![x, y] + rest),
    ensures
        is_at(toks, i, x.tk),
        is_at(toks, i + 1, y.tk),
        tokens_at(toks, i + 2, rest),
{
    lemma_tokens_split(toks, i, seq![x, y], rest);
    lemma_token(toks, i, seq![x, y], 0);
    lemma_token(toks, i, seq![x, y], 1);
}

proof fn lemma_parse_with(toks: Seq<TokenV>, i: int, depth: nat, lock: Name, b: Seq<StmtV>, k: int)
    requires
        is_word(toks, i, "with"@),
        is_word(toks, i + 1, lock),
        lock != "ordered"@,
        i + 2 <= toks.len(),
        block_read(toks, i + 2, depth + 1, b, k),
    ensures
        stmt_read(toks, i, depth, StmtV::With { lock, line: line_at(toks, i), body: b }, k),
{
    reveal(stmt_read);
    reveal(block_read);
    lemma_words_differ();
}

proof fn lemma_parse_ordered(
    toks: Seq<TokenV>,
    i: int,
    depth: nat,
    locks: Seq<Name>,
    j: int,
    b: Seq<StmtV>,
    k: int,
)
    requires
        is_word(toks, i, "with"@),
        is_word(toks, i + 1, "ordered"@),
        locks.len() > 0,
        parse_list(toks, i + 2) == Ok::<(Seq<Name>, int), Name>((locks, j)),
        i < j <= toks.len(),
        block_read(toks, j, depth + 1, b, k),
    ensures
        stmt_read(toks, i, depth, StmtV::Ordered { locks, line: line_at(toks, i), body: b }, k),
{
    reveal(stmt_read);
    reveal(block_read);
    lemma_words_differ();
}

proof fn lemma_parse_couple(
    toks: Seq<TokenV>,
    i: int,
    depth: nat,
    class: Name,
    b: Seq<StmtV>,
    k: int,
)
    requires
        is_word(toks, i, "couple"@),
        is_word(toks, i + 1, class),
        i + 2 <= toks.len(),
        block_read(toks, i + 2, depth + 1, b, k),
    ensures
        stmt_read(toks, i, depth, StmtV::Couple { class, line: line_at(toks, i), body: b }, k),
{
    reveal(stmt_read);
    reveal(block_read);
}

proof fn lemma_parse_mask(toks: Seq<TokenV>, i: int, depth: nat, b: Seq<StmtV>, k: int)
    requires
        is_word(toks, i, "mask"@),
        is_at(toks, i + 1, TkV::LBrace),
        block_read(toks, i + 1, depth + 1, b, k),
    ensures
        stmt_read(toks, i, depth, StmtV::Mask { body: b }, k),
{
    reveal(stmt_read);
    reveal(block_read);
    lemma_words_differ();
}

proof fn lemma_parse_call(
    toks: Seq<TokenV>,
    i: int,
    depth: nat,
    callee: Name,
    args: Seq<Name>,
    k: int,
)
    requires
        is_word(toks, i, callee),
        is_at(toks, i + 1, TkV::LParen),
        parse_list(toks, i + 1) == Ok::<(Seq<Name>, int), Name>((args, k)),
    ensures
        stmt_read(toks, i, depth, StmtV::Call { callee, args, line: line_at(toks, i) }, k),
{
    reveal(stmt_read);
    reveal(block_read);
}

/// The tokens of a statement: where its pieces stand.
spec fn pieces_at(toks: Seq<TokenV>, i: int, s: StmtV) -> bool {
    match s {
        StmtV::With { lock, line, body } => {
            &&& is_word(toks, i, "with"@)
            &&& is_word(toks, i + 1, lock)
            &&& tokens_at(toks, i + 2, spell_block(body))
            &&& spell_stmt(s).len() == 2 + spell_block(body).len()
        },
        StmtV::Ordered { locks, line, body } => {
            &&& is_word(toks, i, "with"@)
            &&& is_word(toks, i + 1, "ordered"@)
            &&& tokens_at(toks, i + 2, spell_list(locks))
            &&& tokens_at(toks, i + 2 + spell_list(locks).len(), spell_block(body))
            &&& spell_stmt(s).len() == 2 + spell_list(locks).len() + spell_block(body).len()
        },
        StmtV::Couple { class, line, body } => {
            &&& is_word(toks, i, "couple"@)
            &&& is_word(toks, i + 1, class)
            &&& tokens_at(toks, i + 2, spell_block(body))
            &&& spell_stmt(s).len() == 2 + spell_block(body).len()
        },
        StmtV::Mask { body } => {
            &&& is_word(toks, i, "mask"@)
            &&& tokens_at(toks, i + 1, spell_block(body))
            &&& spell_stmt(s).len() == 1 + spell_block(body).len()
        },
        StmtV::Call { callee, args, line } => {
            &&& is_word(toks, i, callee)
            &&& tokens_at(toks, i + 1, spell_list(args))
            &&& spell_stmt(s).len() == 1 + spell_list(args).len()
        },
    }
}

proof fn lemma_pieces_at(toks: Seq<TokenV>, i: int, s: StmtV)
    requires
        tokens_at(toks, i, spell_stmt(s)),
    ensures
        pieces_at(toks, i, s),
        0 <= i,
        i + spell_stmt(s).len() <= toks.len(),
{
    assert(0 <= i && i + spell_stmt(s).len() <= toks.len()) by {
        reveal(tokens_at);
    }
    match s {
        StmtV::With { lock, line, body } => {
            let first = Letter { tk: TkV::Ident("with"@), line: Some(line) };
            lemma_two_and_block(toks, i, first, word(lock), spell_block(body));
        },
        StmtV::Ordered { locks, line, body } => {
            let first = Letter { tk: TkV::Ident("with"@), line: Some(line) };
            let head = seq![first, word("ordered"@)];
            lemma_tokens_split(toks, i, head + spell_list(locks), spell_block(body));
            lemma_two_and_block(toks, i, first, word("ordered"@), spell_list(locks));
        },
        StmtV::Couple { class, line, body } => {
            let first = Letter { tk: TkV::Ident("couple"@), line: Some(line) };
            lemma_two_and_block(toks, i, first, word(class), spell_block(body));
        },
        StmtV::Mask { body } => {
            lemma_tokens_split(toks, i, seq![word("mask"@)], spell_block(body));
            lemma_token(toks, i, seq![word("mask"@)], 0);
        },
        StmtV::Call { callee, args, line } => {
            let first = seq![Letter { tk: TkV::Ident(callee), line: Some(line) }];
            lemma_tokens_split(toks, i, first, spell_list(args));
            lemma_token(toks, i, first, 0);
        },
    }
}

proof fn lemma_stmt_back(toks: Seq<TokenV>, i: int, depth: nat, s: StmtV)
    requires
        tokens_at(toks, i, spell_stmt(s)),
        depth <= MAX_PARSE_DEPTH,
        writable_stmt(s, MAX_PARSE_DEPTH - depth),
    ensures
        stmt_read(toks, i, depth, relined_stmt(toks, i, s), i + spell_stmt(s).len()),
        spell_stmt(s).len() > 0,
        i + spell_stmt(s).len() <= toks.len(),
        0 <= i < toks.len(),
        !is_at(toks, i, TkV::RBrace),
    decreases s,
{
    lemma_pieces_at(toks, i, s);
    let k = i + spell_stmt(s).len();
    match s {
        StmtV::With { lock, line, body } => {
            lemma_block_back(toks, i + 2, depth + 1, body);
            let b = relined_block(toks, i + 3, body, body.len() as int);
            lemma_parse_with(toks, i, depth, lock, b, k);
        },
        StmtV::Ordered { locks, line, body } => {
            let j = i + 2 + spell_list(locks).len();
            lemma_list_back(toks, i + 2, locks);
            lemma_block_back(toks, j, depth + 1, body);
            let b = relined_block(toks, j + 1, body, body.len() as int);
            lemma_parse_ordered(toks, i, depth, locks, j, b, k);
        },
        StmtV::Couple { class, line, body } => {
            lemma_block_back(toks, i + 2, depth + 1, body);
            let b = relined_block(toks, i + 3, body, body.len() as int);
            lemma_parse_couple(toks, i, depth, class, b, k);
        },
        StmtV::Mask { body } => {
            lemma_block_back(toks, i + 1, depth + 1, body);
            let b = relined_block(toks, i + 2, body, body.len() as int);
            lemma_parse_mask(toks, i, depth, b, k);
        },
        StmtV::Call { callee, args, line } => {
            lemma_list_back(toks, i + 1, args);
            lemma_parse_call(toks, i, depth, callee, args, k);
        },
    }
}

proof fn lemma_fn_back(toks: Seq<TokenV>, i: int, f: FuncV)
    requires
        tokens_at(toks, i, spell_fn(f)),
        writable_item(ItemV::Func(f)),
    ensures
        ({
            let at = i + 3 + spell_list(f.params).len();
            let body = relined_block(toks, at, f.body, f.body.len() as int);
            parse_fn(toks, i, f.is_isr) == Ok::<(ItemV, int), Name>(
                (ItemV::Func(FuncV { body, ..f }), i + spell_fn(f).len()),
            )
        }),
        is_word(toks, i, "fn"@),
{
    reveal(parse_fn);
    reveal(block_read);
    let head = seq![word("fn"@), word(f.name)];
    lemma_tokens_split(toks, i, head + spell_list(f.params), spell_block(f.body));
    lemma_two_and_block(toks, i, word("fn"@), word(f.name), spell_list(f.params));
    lemma_list_back(toks, i + 2, f.params);
    lemma_block_back(toks, i + 2 + spell_list(f.params).len(), 1, f.body);
}

proof fn lemma_lock_back(toks: Seq<TokenV>, i: int, name: Name, class: Name)
    requires
        tokens_at(toks, i, spell_item(ItemV::Lock { name, class })),
    ensures
        parse_lock(toks, i) == Ok::<(ItemV, int), Name>((ItemV::Lock { name, class }, i + 4)),
        is_word(toks, i, "lock"@),
        spell_item(ItemV::Lock { name, class }).len() == 4,
{
    reveal(spell_item);
    reveal(parse_lock);
    let q = spell_item(ItemV::Lock { name, class });
    lemma_token(toks, i, q, 0);
    lemma_token(toks, i, q, 1);
    lemma_token(toks, i, q, 2);
    lemma_token(toks, i, q, 3);
}

proof fn lemma_foreign_back(toks: Seq<TokenV>, i: int, name: Name, acquires: Seq<Name>)
    requires
        tokens_at(toks, i, spell_item(ItemV::Extern { name, acquires })),
        ({
            let end = i + spell_item(ItemV::Extern { name, acquires }).len();
            !is_word(toks, end, "acquires"@) && !is_at(toks, end, TkV::Comma)
        }),
    ensures
        parse_foreign(toks, i) == Ok::<(ItemV, int), Name>(
            (
                ItemV::Extern { name, acquires },
                i + spell_item(ItemV::Extern { name, acquires }).len(),
            ),
        ),
        is_word(toks, i, "extern"@),
{
    reveal(spell_item);
    reveal(parse_foreign);
    let q = spell_item(ItemV::Extern { name, acquires });
    if acquires.len() == 0 {
        lemma_token(toks, i, q, 0);
        lemma_token(toks, i, q, 1);
        lemma_token(toks, i, q, 2);
        assert(acquires =~= Seq::empty());
    } else {
        let head = seq![word("extern"@), word("fn"@), word(name), word("acquires"@)];
        lemma_tokens_split(toks, i, head, spell_idents(acquires));
        lemma_token(toks, i, head, 0);
        lemma_token(toks, i, head, 1);
        lemma_token(toks, i, head, 2);
        lemma_token(toks, i, head, 3);
        lemma_idents_back(toks, i + 4, acquires);
    }
}

/// An item starts with one of four words.
proof fn lemma_item_starts(x: ItemV)
    ensures
        spell_item(x).len() > 0,
        ({
            let t = spell_item(x)[0].tk;
            t == TkV::Ident("lock"@) || t == TkV::Ident("extern"@) || t == TkV::Ident("isr"@) || t
                == TkV::Ident("fn"@)
        }),
{
    reveal(spell_item);
}

proof fn lemma_item_back(toks: Seq<TokenV>, i: int, x: ItemV)
    requires
        tokens_at(toks, i, spell_item(x)),
        writable_item(x),
        !is_word(toks, i + spell_item(x).len(), "acquires"@),
        !is_at(toks, i + spell_item(x).len(), TkV::Comma),
    ensures
        parse_item(toks, i) == Ok::<(ItemV, int), Name>(
            (relined_item(toks, i, x), i + spell_item(x).len()),
        ),
        0 <= i < i + spell_item(x).len() <= toks.len(),
{
    lemma_words_differ();
    lemma_item_starts(x);
    assert(0 <= i && i + spell_item(x).len() <= toks.len()) by {
        reveal(tokens_at);
    }
    reveal(parse_item);
    match x {
        ItemV::Lock { name, class } => {
            lemma_lock_back(toks, i, name, class);
        },
        ItemV::Extern { name, acquires } => {
            lemma_foreign_back(toks, i, name, acquires);
        },
        ItemV::Func(f) => {
            reveal(spell_item);
            if f.is_isr {
                lemma_tokens_split(toks, i, seq![word("isr"@)], spell_fn(f));
                lemma_token(toks, i, seq![word("isr"@)], 0);
                lemma_fn_back(toks, i + 1, f);
            } else {
                lemma_fn_back(toks, i, f);
            }
        },
    }
}

proof fn lemma_items_prefix(items: Seq<ItemV>, n: int) -> (rest: Seq<Letter>)
    requires
        0 <= n <= items.len(),
    ensures
        spell_items(items) == spell_items(items.take(n)) + rest,
        n < items.len() ==> rest.len() > 0 && rest[0] == spell_item(items[n])[0],
        n == items.len() ==> rest.len() == 0,
    decreases items.len() - n,
{
    if n == items.len() {
        assert(items.take(n) =~= items);
        assert(spell_items(items) + Seq::<Letter>::empty() =~= spell_items(items));
        Seq::empty()
    } else {
        let tail = lemma_items_prefix(items, n + 1);
        assert(items.take(n + 1).drop_last() =~= items.take(n));
        assert(items.take(n + 1).last() == items[n]);
        let done = spell_items(items.take(n));
        assert(done + spell_item(items[n]) + tail =~= done + (spell_item(items[n]) + tail));
        lemma_item_starts(items[n]);
        spell_item(items[n]) + tail
    }
}

/// The items from number `n` on are read back.
proof fn lemma_items_back(toks: Seq<TokenV>, items: Seq<ItemV>, n: int)
    requires
        0 <= n <= items.len(),
        tokens_at(toks, 0, spell_items(items)),
        toks.len() == spell_items(items).len(),
        writable(items),
    ensures
        parse_items(
            toks,
            spell_items(items.take(n)).len() as int,
            relined(toks, items.take(n)),
        ) == Ok::<Seq<ItemV>, Name>(relined(toks, items)),
    decreases items.len() - n,
{
    let at = spell_items(items.take(n)).len() as int;
    if n == items.len() {
        assert(items.take(n) =~= items);
    } else {
        let x = items[n];
        assert(items.take(n + 1).drop_last() =~= items.take(n));
        assert(items.take(n + 1).last() == x);
        let rest = lemma_items_prefix(items, n + 1);
        let done = spell_items(items.take(n));
        lemma_tokens_split(toks, 0, done + spell_item(x), rest);
        lemma_tokens_split(toks, 0, done, spell_item(x));
        let end = at + spell_item(x).len();
        lemma_words_differ();
        if n + 1 < items.len() {
            lemma_token(toks, end, rest, 0);
            lemma_item_starts(items[n + 1]);
        }
        lemma_item_back(toks, at, x);
        lemma_items_back(toks, items, n + 1);
    }
}

/// Tokens that spell a program parse to that program, with the lines of the
/// tokens.
pub proof fn spelled_trees_are_parsed(toks: Seq<TokenV>, items: Seq<ItemV>)
    requires
        tokens_at(toks, 0, spell_items(items)),
        toks.len() == spell_items(items).len(),
        writable(items),
    ensures
        parse_items(toks, 0, Seq::empty()) == Ok::<Seq<ItemV>, Name>(relined(toks, items)),
{
    lemma_items_back(toks, items, 0);
    assert(items.take(0) =~= Seq::empty());
}

/// The text of a token.
pub open spec fn token_text(t: TkV) -> Name {
    match t {
        TkV::Ident(s) => s,
        TkV::Colon => seq![':'],
        TkV::LBrace => seq!['{'],
        TkV::RBrace => seq!['}'],
        TkV::LParen => seq!['('],
        TkV::RParen => seq![')'],
        TkV::Comma => seq![','],
    }
}

/// A comment: two slashes and any text up to the end of the line.
pub open spec fn is_comment(s: Name) -> bool {
    &&& s.len() >= 2
    &&& s[0] == '/'
    &&& s[1] == '/'
    &&& forall|k: int| 0 <= k < s.len() ==> #[trigger] s[k] != '\n'
}

/// The first `n` characters are a comment, and the line ends there.
pub open spec fn comment_ends(s: Name, n: int) -> bool {
    0 <= n < s.len() && is_comment(s.take(n)) && s[n] == '\n'
}

/// White space and comments, each comment up to the end of its line.
pub open spec fn is_gap(s: Name) -> bool
    decreases s.len(),
{
    ||| s.len() == 0
    ||| is_blank(s[0]) && is_gap(s.skip(1))
    ||| exists|n: int| #[trigger] comment_ends(s, n) && n > 0 && is_gap(s.skip(n))
}

/// What may stand at the end of a text: a gap, and a last comment.
pub open spec fn is_tail(s: Name) -> bool {
    is_gap(s) || exists|n: int|
        0 <= n <= s.len() && is_gap(#[trigger] s.take(n)) && is_comment(s.skip(n))
}

/// How tokens are laid out: `gaps[k]` stands before token `k`, and the last one
/// behind the last token. Two words have something between them, and no word goes
/// on in the gap behind it.
pub open spec fn is_layout(q: Seq<TkV>, gaps: Seq<Name>) -> bool {
    &&& gaps.len() == q.len() + 1
    &&& forall|k: int| 0 <= k < q.len() ==> is_gap(#[trigger] gaps[k])
    &&& is_tail(gaps.last())
    &&& forall|k: int|
        0 < k < q.len() && q[k - 1] is Ident && (#[trigger] q[k]) is Ident ==> gaps[k].len() > 0
    &&& forall|k: int|
        0 < k < gaps.len() && q[k - 1] is Ident && (#[trigger] gaps[k]).len() > 0 ==> !is_word_char(
            gaps[k][0],
        )
}

/// The text of the first `n` tokens, up to the next one.
pub open spec fn laid_out(q: Seq<TkV>, gaps: Seq<Name>, n: int) -> Name
    decreases n,
{
    if n <= 0 {
        gaps[0]
    } else {
        laid_out(q, gaps, n - 1) + token_text(q[n - 1]) + gaps[n]
    }
}

/// How many lines end in the text.
pub open spec fn line_ends(s: Name) -> nat
    decreases s.len(),
{
    if s.len() == 0 {
        0
    } else {
        line_ends(s.drop_last()) + if s.last() == '\n' {
            1nat
        } else {
            0nat
        }
    }
}

/// The first `n` tokens, each on the line that it starts on.
pub open spec fn placed(q: Seq<TkV>, gaps: Seq<Name>, n: int) -> Seq<TokenV>
    decreases n,
{
    if n <= 0 {
        Seq::empty()
    } else {
        placed(q, gaps, n - 1).push(
            TokenV { tk: q[n - 1], line: 1 + line_ends(laid_out(q, gaps, n - 1)) },
        )
    }
}

/// The line ends of two texts together.
pub proof fn lemma_line_ends(a: Name, b: Name)
    ensures
        line_ends(a + b) == line_ends(a) + line_ends(b),
    decreases b.len(),
{
    if b.len() == 0 {
        assert(a + b =~= a);
    } else {
        assert((a + b).drop_last() =~= a + b.drop_last());
        lemma_line_ends(a, b.drop_last());
    }
}

/// A text without line feeds has no line ends.
pub proof fn lemma_no_line_ends(s: Name)
    requires
        forall|k: int| 0 <= k < s.len() ==> (#[trigger] s[k]) != '\n',
    ensures
        line_ends(s) == 0,
    decreases s.len(),
{
    if s.len() > 0 {
        let r = s.drop_last();
        assert forall|k: int| 0 <= k < r.len() implies (#[trigger] r[k]) != '\n' by {
            assert(r[k] == s[k]);
        }
        lemma_no_line_ends(r);
    }
}

proof fn lemma_line_end(s: Name, i: int, j: int)
    requires
        0 <= i <= j <= s.len(),
        forall|k: int| i <= k < j ==> #[trigger] s[k] != '\n',
        j < s.len() ==> s[j] == '\n',
    ensures
        line_end(s, i) == j,
    decreases j - i,
{
    if i < j {
        lemma_line_end(s, i + 1, j);
    }
}

/// The comment `w` at `i`, which ends its line, is passed over.
proof fn lemma_comment_lexed(s: Name, i: int, line: nat, toks: Seq<TokenV>, w: Name)
    requires
        0 <= i,
        i + w.len() <= s.len(),
        s.subrange(i, i + w.len()) == w,
        is_comment(w),
        i + w.len() < s.len() ==> s[i + w.len()] == '\n',
    ensures
        lexed(s, i, line, toks) == lexed(s, i + w.len(), line, toks),
{
    let at = s.subrange(i, i + w.len());
    assert(s[i] == at[0] && s[i + 1] == at[1]);
    assert forall|k: int| i + 2 <= k < i + w.len() implies #[trigger] s[k] != '\n' by {
        assert(s[k] == at[k - i]);
    }
    lemma_line_end(s, i + 2, i + w.len());
}

/// The gap `g` at `i` is passed over.
proof fn lemma_gap_lexed(s: Name, i: int, line: nat, toks: Seq<TokenV>, g: Name)
    requires
        0 <= i,
        i + g.len() <= s.len(),
        s.subrange(i, i + g.len()) == g,
        is_gap(g),
    ensures
        lexed(s, i, line, toks) == lexed(s, i + g.len(), line + line_ends(g), toks),
    decreases g.len(),
{
    if g.len() > 0 {
        assert(s[i] == s.subrange(i, i + g.len())[0]);
        if is_blank(s[i]) && is_gap(g.skip(1)) {
            let r = g.skip(1);
            let first = seq![g[0]];
            assert(s.subrange(i + 1, i + 1 + r.len()) =~= r);
            assert(g =~= first + r);
            lemma_line_ends(first, r);
            assert(first.drop_last() =~= Seq::<char>::empty());
            assert(line_ends(Seq::<char>::empty()) == 0);
            assert(line_ends(first) == if g[0] == '\n' {
                1nat
            } else {
                0nat
            });
            let after = line + line_ends(first);
            lemma_gap_lexed(s, i + 1, after, toks, r);
        } else {
            let n = choose|n: int| #[trigger] comment_ends(g, n) && n > 0 && is_gap(g.skip(n));
            let w = g.take(n);
            let r = g.skip(n);
            assert(s.subrange(i, i + n) =~= w);
            assert(s[i + n] == s.subrange(i, i + g.len())[n]);
            lemma_comment_lexed(s, i, line, toks, w);
            assert(s.subrange(i + n, i + n + r.len()) =~= r);
            lemma_gap_lexed(s, i + n, line, toks, r);
            assert(g =~= w + r);
            lemma_line_ends(w, r);
            lemma_no_line_ends(w);
        }
    } else {
        assert(g =~= Seq::empty());
    }
}

/// What stands at the end of a text is passed over.
proof fn lemma_tail_lexed(s: Name, i: int, line: nat, toks: Seq<TokenV>, g: Name)
    requires
        0 <= i,
        i + g.len() == s.len(),
        s.subrange(i, i + g.len()) == g,
        is_tail(g),
    ensures
        lexed(s, i, line, toks) == Ok::<Seq<TokenV>, Name>(toks),
{
    if is_gap(g) {
        lemma_gap_lexed(s, i, line, toks, g);
    } else {
        let n = choose|n: int|
            0 <= n <= g.len() && is_gap(#[trigger] g.take(n)) && is_comment(g.skip(n));
        let a = g.take(n);
        let w = g.skip(n);
        assert(s.subrange(i, i + n) =~= a);
        lemma_gap_lexed(s, i, line, toks, a);
        assert(s.subrange(i + n, i + n + w.len()) =~= w);
        lemma_comment_lexed(s, i + n, line + line_ends(a), toks, w);
    }
}

proof fn lemma_word_end(s: Name, i: int, w: Name, n: int)
    requires
        0 <= i,
        i + w.len() <= s.len(),
        s.subrange(i, i + w.len()) == w,
        is_identifier(w),
        i + w.len() < s.len() ==> !is_word_char(s[i + w.len()]),
        0 <= n <= w.len(),
    ensures
        word_end(s, i + n) == i + w.len(),
    decreases w.len() - n,
{
    if n < w.len() {
        assert(s[i + n] == s.subrange(i, i + w.len())[n]);
        assert(is_word_char(w[n]));
        lemma_word_end(s, i, w, n + 1);
    }
}

/// The token `t` at `i` is taken.
proof fn lemma_token_lexed(s: Name, i: int, line: nat, toks: Seq<TokenV>, t: TkV)
    requires
        0 <= i,
        i + token_text(t).len() <= s.len(),
        s.subrange(i, i + token_text(t).len()) == token_text(t),
        t is Ident ==> is_identifier(t->Ident_0),
        t is Ident && i + token_text(t).len() < s.len() ==> !is_word_char(
            s[i + token_text(t).len()],
        ),
    ensures
        lexed(s, i, line, toks) == lexed(
            s,
            i + token_text(t).len(),
            line,
            toks.push(TokenV { tk: t, line }),
        ),
{
    let w = token_text(t);
    if t is Ident {
        assert(s[i] == s.subrange(i, i + w.len())[0]);
        lemma_word_end(s, i, w, 1);
    } else {
        assert(s[i] == s.subrange(i, i + 1)[0]);
    }
}

proof fn lemma_laid_prefix(q: Seq<TkV>, gaps: Seq<Name>, n: int) -> (rest: Name)
    requires
        0 <= n <= q.len(),
    ensures
        laid_out(q, gaps, q.len() as int) == laid_out(q, gaps, n) + rest,
        n < q.len() ==> rest.len() >= token_text(q[n]).len() && rest.take(
            token_text(q[n]).len() as int,
        ) == token_text(q[n]),
        n == q.len() ==> rest.len() == 0,
    decreases q.len() - n,
{
    if n == q.len() {
        assert(laid_out(q, gaps, n) + Seq::<char>::empty() =~= laid_out(q, gaps, n));
        Seq::empty()
    } else {
        let tail = lemma_laid_prefix(q, gaps, n + 1);
        let done = laid_out(q, gaps, n);
        let w = token_text(q[n]);
        let rest = w + gaps[n + 1] + tail;
        assert(done + w + gaps[n + 1] + tail =~= done + rest);
        assert(rest.take(w.len() as int) =~= w);
        rest
    }
}

/// Every word is an identifier.
pub open spec fn are_tokens(q: Seq<TkV>) -> bool {
    forall|k: int| 0 <= k < q.len() && (#[trigger] q[k]) is Ident ==> is_identifier(q[k]->Ident_0)
}

/// The tokens of letters.
pub open spec fn tokens_of(q: Seq<Letter>) -> Seq<TkV> {
    q.map_values(|x: Letter| x.tk)
}

/// Every word is an identifier.
pub open spec fn words_identify(q: Seq<Letter>) -> bool {
    forall|k: int|
        0 <= k < q.len() && (#[trigger] q[k]).tk is Ident ==> is_identifier(q[k].tk->Ident_0)
}

/// No word goes on in what follows token `n`.
proof fn lemma_word_stops(q: Seq<TkV>, gaps: Seq<Name>, n: int, s: Name)
    requires
        is_layout(q, gaps),
        are_tokens(q),
        0 <= n < q.len(),
        q[n] is Ident,
        s == laid_out(q, gaps, q.len() as int),
    ensures
        ({
            let end = laid_out(q, gaps, n).len() + token_text(q[n]).len();
            end < s.len() ==> !is_word_char(s[end as int])
        }),
{
    let done = laid_out(q, gaps, n);
    let w = token_text(q[n]);
    let g = gaps[n + 1];
    let end = done.len() + w.len();
    let tail = lemma_laid_prefix(q, gaps, n + 1);
    assert(laid_out(q, gaps, n + 1) == done + w + g);
    assert(s == done + w + g + tail);
    if g.len() > 0 {
        assert(s[end as int] == g[0]);
        assert(!is_word_char(gaps[n + 1][0]));
    } else if n + 1 < q.len() {
        let t = q[n + 1];
        assert(!(t is Ident));
        let v = token_text(t);
        assert(v.len() == 1);
        assert(tail.take(v.len() as int)[0] == tail[0]);
        assert(s[end as int] == tail[0]);
    }
}

/// The text of the first `n` tokens is lexed to those tokens.
proof fn lemma_laid_lexed(q: Seq<TkV>, gaps: Seq<Name>, n: int, s: Name)
    requires
        is_layout(q, gaps),
        are_tokens(q),
        0 <= n < gaps.len(),
        s == laid_out(q, gaps, q.len() as int),
    ensures
        n < q.len() ==> lexed(s, 0, 1, Seq::empty()) == lexed(
            s,
            laid_out(q, gaps, n).len() as int,
            1 + line_ends(laid_out(q, gaps, n)),
            placed(q, gaps, n),
        ),
        n == q.len() ==> lexed(s, 0, 1, Seq::empty()) == Ok::<Seq<TokenV>, Name>(
            placed(q, gaps, n),
        ),
    decreases n,
{
    let text = laid_out(q, gaps, n);
    let rest = lemma_laid_prefix(q, gaps, n);
    let g = gaps[n];
    if n == 0 {
        assert(s.subrange(0, g.len() as int) =~= g);
        if n < q.len() {
            assert(is_gap(gaps[n]));
            lemma_gap_lexed(s, 0, 1, Seq::empty(), g);
        } else {
            assert(rest =~= Seq::empty());
            lemma_tail_lexed(s, 0, 1, Seq::empty(), g);
        }
    } else {
        lemma_laid_lexed(q, gaps, n - 1, s);
        let done = laid_out(q, gaps, n - 1);
        let t = q[n - 1];
        let w = token_text(t);
        let i = done.len() as int;
        let line = 1 + line_ends(done);
        assert(text == done + w + g);
        assert(s == done + w + g + rest);
        assert(s.subrange(i, i + w.len()) =~= w);
        if t is Ident {
            lemma_word_stops(q, gaps, n - 1, s);
        }
        lemma_token_lexed(s, i, line, placed(q, gaps, n - 1), t);
        let j = i + w.len();
        assert(s.subrange(j, j + g.len()) =~= g);
        if n < q.len() {
            assert(is_gap(gaps[n]));
            lemma_gap_lexed(s, j, line, placed(q, gaps, n), g);
        } else {
            assert(rest =~= Seq::empty());
            lemma_tail_lexed(s, j, line, placed(q, gaps, n), g);
        }
        lemma_line_ends(done + w, g);
        lemma_line_ends(done, w);
        assert forall|k: int| 0 <= k < w.len() implies (#[trigger] w[k]) != '\n' by {
            if t is Ident {
                assert(is_word_char(w[k]));
            }
        }
        lemma_no_line_ends(w);
    }
}

proof fn lemma_placed(q: Seq<TkV>, gaps: Seq<Name>, n: int)
    requires
        0 <= n <= q.len(),
    ensures
        placed(q, gaps, n).len() == n,
        forall|k: int| 0 <= k < n ==> (#[trigger] placed(q, gaps, n)[k]).tk == q[k],
    decreases n,
{
    if n > 0 {
        lemma_placed(q, gaps, n - 1);
    }
}

proof fn lemma_join_identifies(a: Seq<Letter>, b: Seq<Letter>)
    requires
        words_identify(a),
        words_identify(b),
    ensures
        words_identify(a + b),
{
    assert forall|k: int|
        0 <= k < (a + b).len() && (#[trigger] (a + b)[k]).tk is Ident implies is_identifier(
        (a + b)[k].tk->Ident_0,
    ) by {
        if k < a.len() {
            assert((a + b)[k] == a[k]);
        } else {
            assert((a + b)[k] == b[k - a.len()]);
        }
    }
}

proof fn lemma_keywords_identify()
    ensures
        is_identifier("with"@),
        is_identifier("ordered"@),
        is_identifier("couple"@),
        is_identifier("mask"@),
        is_identifier("lock"@),
        is_identifier("fn"@),
        is_identifier("isr"@),
        is_identifier("extern"@),
        is_identifier("acquires"@),
{
    reveal_strlit("with");
    reveal_strlit("ordered");
    reveal_strlit("couple");
    reveal_strlit("mask");
    reveal_strlit("lock");
    reveal_strlit("fn");
    reveal_strlit("isr");
    reveal_strlit("extern");
    reveal_strlit("acquires");
}

proof fn lemma_idents_identify(q: Seq<Name>)
    requires
        all_identifiers(q),
    ensures
        words_identify(spell_idents(q)),
    decreases q.len(),
{
    if q.len() == 1 {
        assert(is_identifier(q[0]));
    } else if q.len() > 1 {
        let r = q.drop_last();
        assert forall|k: int| 0 <= k < r.len() implies is_identifier(#[trigger] r[k]) by {
            assert(r[k] == q[k]);
        }
        lemma_idents_identify(r);
        assert(is_identifier(q[q.len() - 1]));
        let pair = seq![plain(TkV::Comma), word(q.last())];
        lemma_join_identifies(spell_idents(r), pair);
        assert(spell_idents(q) =~= spell_idents(r) + pair);
    }
}

proof fn lemma_list_identifies(q: Seq<Name>)
    requires
        all_identifiers(q),
    ensures
        words_identify(spell_list(q)),
{
    let open = seq![plain(TkV::LParen)];
    let close = seq![plain(TkV::RParen)];
    lemma_idents_identify(q);
    lemma_join_identifies(open, spell_idents(q));
    lemma_join_identifies(open + spell_idents(q), close);
}

proof fn lemma_block_identifies(b: Seq<StmtV>, room: int)
    requires
        writable_block(b, b.len() as int, room),
    ensures
        words_identify(spell_block(b)),
    decreases b, b.len() + 1,
{
    let open = seq![plain(TkV::LBrace)];
    let close = seq![plain(TkV::RBrace)];
    let all = spell_stmts(b, b.len() as int);
    lemma_stmts_identify(b, b.len() as int, room);
    lemma_join_identifies(open, all);
    lemma_join_identifies(open + all, close);
}

proof fn lemma_stmts_identify(b: Seq<StmtV>, n: int, room: int)
    requires
        writable_block(b, n, room),
    ensures
        words_identify(spell_stmts(b, n)),
    decreases b, n,
{
    if 0 < n <= b.len() {
        lemma_stmts_identify(b, n - 1, room);
        lemma_stmt_identifies(b[n - 1], room);
        lemma_join_identifies(spell_stmts(b, n - 1), spell_stmt(b[n - 1]));
    }
}

proof fn lemma_stmt_identifies(s: StmtV, room: int)
    requires
        writable_stmt(s, room),
    ensures
        words_identify(spell_stmt(s)),
    decreases s,
{
    lemma_keywords_identify();
    match s {
        StmtV::With { lock, line, body } => {
            let head = seq![Letter { tk: TkV::Ident("with"@), line: Some(line) }, word(lock)];
            assert(words_identify(head));
            lemma_block_identifies(body, room - 1);
            lemma_join_identifies(head, spell_block(body));
        },
        StmtV::Ordered { locks, line, body } => {
            let head = seq![
                Letter { tk: TkV::Ident("with"@), line: Some(line) },
                word("ordered"@),
            ];
            assert(words_identify(head));
            lemma_list_identifies(locks);
            lemma_block_identifies(body, room - 1);
            lemma_join_identifies(head, spell_list(locks));
            lemma_join_identifies(head + spell_list(locks), spell_block(body));
        },
        StmtV::Couple { class, line, body } => {
            let head = seq![Letter { tk: TkV::Ident("couple"@), line: Some(line) }, word(class)];
            assert(words_identify(head));
            lemma_block_identifies(body, room - 1);
            lemma_join_identifies(head, spell_block(body));
        },
        StmtV::Mask { body } => {
            assert(words_identify(seq![word("mask"@)]));
            lemma_block_identifies(body, room - 1);
            lemma_join_identifies(seq![word("mask"@)], spell_block(body));
        },
        StmtV::Call { callee, args, line } => {
            let head = seq![Letter { tk: TkV::Ident(callee), line: Some(line) }];
            assert(words_identify(head));
            lemma_list_identifies(args);
            lemma_join_identifies(head, spell_list(args));
        },
    }
}

proof fn lemma_item_identifies(x: ItemV)
    requires
        writable_item(x),
    ensures
        words_identify(spell_item(x)),
{
    reveal(spell_item);
    lemma_keywords_identify();
    match x {
        ItemV::Lock { name, class } => {},
        ItemV::Func(f) => {
            let head = seq![word("fn"@), word(f.name)];
            assert(words_identify(head));
            lemma_list_identifies(f.params);
            lemma_block_identifies(f.body, MAX_PARSE_DEPTH - 1);
            lemma_join_identifies(head, spell_list(f.params));
            lemma_join_identifies(head + spell_list(f.params), spell_block(f.body));
            assert(words_identify(seq![word("isr"@)]));
            lemma_join_identifies(seq![word("isr"@)], spell_fn(f));
        },
        ItemV::Extern { name, acquires } => {
            let head = seq![word("extern"@), word("fn"@), word(name), word("acquires"@)];
            assert(words_identify(head));
            lemma_idents_identify(acquires);
            lemma_join_identifies(head, spell_idents(acquires));
        },
    }
}

proof fn lemma_items_identify(items: Seq<ItemV>)
    requires
        writable(items),
    ensures
        words_identify(spell_items(items)),
    decreases items.len(),
{
    if items.len() > 0 {
        let r = items.drop_last();
        assert forall|k: int| 0 <= k < r.len() implies writable_item(#[trigger] r[k]) by {
            assert(r[k] == items[k]);
        }
        lemma_items_identify(r);
        assert(writable_item(items[items.len() - 1]));
        lemma_item_identifies(items.last());
        lemma_join_identifies(spell_items(r), spell_item(items.last()));
    }
}

/// The statement without its lines.
pub open spec fn unlined_stmt(s: StmtV) -> StmtV
    decreases s,
{
    match s {
        StmtV::With { lock, line, body } => StmtV::With {
            lock,
            line: 0,
            body: unlined_block(body, body.len() as int),
        },
        StmtV::Ordered { locks, line, body } => StmtV::Ordered {
            locks,
            line: 0,
            body: unlined_block(body, body.len() as int),
        },
        StmtV::Couple { class, line, body } => StmtV::Couple {
            class,
            line: 0,
            body: unlined_block(body, body.len() as int),
        },
        StmtV::Mask { body } => StmtV::Mask { body: unlined_block(body, body.len() as int) },
        StmtV::Call { callee, args, line } => StmtV::Call { callee, args, line: 0 },
    }
}

/// The first `n` statements of a block without their lines.
pub open spec fn unlined_block(b: Seq<StmtV>, n: int) -> Seq<StmtV>
    decreases b, n,
{
    if 0 < n <= b.len() {
        unlined_block(b, n - 1).push(unlined_stmt(b[n - 1]))
    } else {
        Seq::empty()
    }
}

/// The item without its lines.
pub open spec fn unlined_item(x: ItemV) -> ItemV {
    match x {
        ItemV::Func(f) => ItemV::Func(
            FuncV { body: unlined_block(f.body, f.body.len() as int), ..f },
        ),
        _ => x,
    }
}

/// The program without its lines.
pub open spec fn unlined(items: Seq<ItemV>) -> Seq<ItemV> {
    items.map_values(|x: ItemV| unlined_item(x))
}

proof fn lemma_unlined_prefix(a: Seq<StmtV>, b: Seq<StmtV>, n: int)
    requires
        0 <= n <= a.len(),
        n <= b.len(),
        forall|k: int| 0 <= k < n ==> a[k] == b[k],
    ensures
        unlined_block(a, n) == unlined_block(b, n),
    decreases n,
{
    if n > 0 {
        lemma_unlined_prefix(a, b, n - 1);
    }
}

proof fn lemma_block_unlined(toks: Seq<TokenV>, i: int, b: Seq<StmtV>, n: int)
    requires
        0 <= n <= b.len(),
    ensures
        relined_block(toks, i, b, n).len() == n,
        unlined_block(relined_block(toks, i, b, n), n) == unlined_block(b, n),
    decreases b, n,
{
    if n > 0 {
        let before = relined_block(toks, i, b, n - 1);
        let at = i + spell_stmts(b, n - 1).len();
        lemma_block_unlined(toks, i, b, n - 1);
        lemma_stmt_unlined(toks, at, b[n - 1]);
        lemma_unlined_prefix(relined_block(toks, i, b, n), before, n - 1);
    }
}

proof fn lemma_stmt_unlined(toks: Seq<TokenV>, i: int, s: StmtV)
    ensures
        unlined_stmt(relined_stmt(toks, i, s)) == unlined_stmt(s),
    decreases s,
{
    match s {
        StmtV::With { lock, line, body } => {
            lemma_block_unlined(toks, i + 3, body, body.len() as int);
        },
        StmtV::Ordered { locks, line, body } => {
            let at = i + 3 + spell_list(locks).len();
            lemma_block_unlined(toks, at, body, body.len() as int);
        },
        StmtV::Couple { class, line, body } => {
            lemma_block_unlined(toks, i + 3, body, body.len() as int);
        },
        StmtV::Mask { body } => {
            lemma_block_unlined(toks, i + 2, body, body.len() as int);
        },
        StmtV::Call { callee, args, line } => {},
    }
}

/// Only the lines of a program are taken from the tokens.
proof fn lemma_unlined(toks: Seq<TokenV>, items: Seq<ItemV>)
    ensures
        unlined(relined(toks, items)) == unlined(items),
    decreases items.len(),
{
    if items.len() > 0 {
        let r = items.drop_last();
        let i = spell_items(r).len() as int;
        lemma_unlined(toks, r);
        match items.last() {
            ItemV::Func(f) => {
                let at = i + 3 + spell_list(f.params).len() + if f.is_isr {
                    1int
                } else {
                    0int
                };
                lemma_block_unlined(toks, at, f.body, f.body.len() as int);
            },
            _ => {},
        }
        let x = relined_item(toks, i, items.last());
        assert(unlined_item(x) == unlined_item(items.last()));
        assert(unlined(relined(toks, items)) =~= unlined(relined(toks, r)).push(unlined_item(x)));
        assert(unlined(items) =~= unlined(r).push(unlined_item(items.last())));
    } else {
        assert(unlined(relined(toks, items)) =~= unlined(items));
    }
}

/// A text that lays out tokens is lexed to these tokens, each on the line that it
/// starts on: white space and comments make no difference.
pub proof fn laid_out_tokens_are_lexed(q: Seq<TkV>, gaps: Seq<Name>, src: Name)
    requires
        are_tokens(q),
        is_layout(q, gaps),
        src == laid_out(q, gaps, q.len() as int),
    ensures
        lexed(src, 0, 1, Seq::empty()) == Ok::<Seq<TokenV>, Name>(
            placed(q, gaps, q.len() as int),
        ),
{
    lemma_laid_lexed(q, gaps, q.len() as int, src);
}

/// A program that is written out in the grammar, in any layout and with any
/// comments, is read back: the text parses to the same items and statements in
/// the same order, apart from their lines; each statement bears the line that its
/// first token starts on.
pub proof fn written_programs_are_read_back(items: Seq<ItemV>, gaps: Seq<Name>, src: Name)
    requires
        writable(items),
        is_layout(tokens_of(spell_items(items)), gaps),
        src == laid_out(
            tokens_of(spell_items(items)),
            gaps,
            spell_items(items).len() as int,
        ),
    ensures
        ({
            let q = tokens_of(spell_items(items));
            let toks = placed(q, gaps, q.len() as int);
            &&& lexed(src, 0, 1, Seq::empty()) == Ok::<Seq<TokenV>, Name>(toks)
            &&& parsed(src) == Ok::<Seq<ItemV>, Name>(relined(toks, items))
            &&& unlined(relined(toks, items)) == unlined(items)
        }),
{
    let letters = spell_items(items);
    let q = tokens_of(letters);
    let n = q.len() as int;
    let toks = placed(q, gaps, n);
    lemma_items_identify(items);
    assert(are_tokens(q)) by {
        assert forall|k: int| 0 <= k < q.len() && (#[trigger] q[k]) is Ident implies is_identifier(
            q[k]->Ident_0,
        ) by {
            assert(letters[k].tk == q[k]);
        }
    }
    laid_out_tokens_are_lexed(q, gaps, src);
    lemma_placed(q, gaps, n);
    assert(tokens_at(toks, 0, letters)) by {
        reveal(tokens_at);
        assert forall|k: int| 0 <= k < letters.len() implies toks[k].tk == (
        #[trigger] letters[k]).tk by {
            assert(q[k] == letters[k].tk);
        }
    }
    spelled_trees_are_parsed(toks, items);
    lemma_unlined(toks, items);
}

}
