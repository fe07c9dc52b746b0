//! Lexing accounts for every character: what is lexed is the tokens of the text,
//! and a text that is no layout of tokens is refused.

use vstd::prelude::*;

use crate::parser::{is_word_char, lexed, line_end, punctuation, word_end, TkV, TokenV};
use crate::text::{dec, Name};
use crate::unicode::{is_blank, is_letter};
use crate::writing::{
    are_tokens, comment_ends, is_comment, is_gap, is_identifier, is_layout, is_tail, laid_out,
    laid_out_tokens_are_lexed, lemma_line_ends, lemma_no_line_ends, line_ends, placed, token_text,
};

verus! {

/// The text is a layout of the tokens, each on the line that it starts on.
pub open spec fn is_accounted(s: Name, q: Seq<TkV>, gaps: Seq<Name>, toks: Seq<TokenV>) -> bool {
    &&& are_tokens(q)
    &&& is_layout(q, gaps)
    &&& s == laid_out(q, gaps, q.len() as int)
    &&& toks == placed(q, gaps, q.len() as int)
}

/// The text up to `i` is a layout of the tokens so far.
spec fn is_so_far(s: Name, i: int, line: nat, toks: Seq<TokenV>, q: Seq<TkV>, gaps: Seq<Name>) -> bool {
    let n = q.len() as int;
    &&& 0 <= i <= s.len()
    &&& gaps.len() == n + 1
    &&& s.take(i) == laid_out(q, gaps, n)
    &&& toks == placed(q, gaps, n)
    &&& line == 1 + line_ends(s.take(i))
    &&& are_tokens(q)
    &&& forall|k: int| 0 <= k < gaps.len() ==> is_gap(#[trigger] gaps[k])
    &&& forall|k: int|
        0 < k < n && q[k - 1] is Ident && (#[trigger] q[k]) is Ident ==> gaps[k].len() > 0
    &&& forall|k: int|
        0 < k < gaps.len() && q[k - 1] is Ident && (#[trigger] gaps[k]).len() > 0 ==> !is_word_char(
            gaps[k][0],
        )
    &&& n > 0 && q[n - 1] is Ident && gaps[n].len() == 0 && i < s.len() ==> !is_word_char(s[i])
}

proof fn lemma_same(q: Seq<TkV>, gaps: Seq<Name>, p: Seq<TkV>, more: Seq<Name>, n: int)
    requires
        0 <= n,
        n <= q.len() <= p.len(),
        n < gaps.len(),
        n < more.len(),
        forall|k: int| 0 <= k < n ==> #[trigger] p[k] == q[k],
        forall|k: int| 0 <= k <= n ==> #[trigger] more[k] == gaps[k],
    ensures
        laid_out(p, more, n) == laid_out(q, gaps, n),
        placed(p, more, n) == placed(q, gaps, n),
    decreases n,
{
    assert(more[n] == gaps[n]);
    if n > 0 {
        lemma_same(q, gaps, p, more, n - 1);
        assert(p[n - 1] == q[n - 1]);
    }
}

proof fn lemma_gap_concat(a: Name, b: Name)
    requires
        is_gap(a),
        is_gap(b),
    ensures
        is_gap(a + b),
    decreases a.len(),
{
    let c = a + b;
    if a.len() == 0 {
        assert(c =~= b);
    } else if is_blank(a[0]) && is_gap(a.skip(1)) {
        lemma_gap_concat(a.skip(1), b);
        assert(c.skip(1) =~= a.skip(1) + b);
    } else {
        let n = choose|n: int| #[trigger] comment_ends(a, n) && n > 0 && is_gap(a.skip(n));
        lemma_gap_concat(a.skip(n), b);
        assert(c.skip(n) =~= a.skip(n) + b);
        assert(c.take(n) =~= a.take(n));
        assert(comment_ends(c, n));
    }
}

/// The last gap grows by `more`, which stands at `i`.
proof fn lemma_grow(
    s: Name,
    i: int,
    line: nat,
    toks: Seq<TokenV>,
    q: Seq<TkV>,
    gaps: Seq<Name>,
    more: Name,
)
    requires
        is_so_far(s, i, line, toks, q, gaps),
        i + more.len() <= s.len(),
        s.subrange(i, i + more.len()) == more,
        more.len() > 0,
    ensures
        ({
            let n = q.len() as int;
            let after = gaps.update(n, gaps[n] + more);
            &&& s.take(i + more.len()) == laid_out(q, after, n)
            &&& toks == placed(q, after, n)
            &&& forall|k: int|
                0 < k < after.len() && q[k - 1] is Ident && (#[trigger] after[k]).len() > 0
                    ==> !is_word_char(after[k][0])
            &&& forall|k: int|
                0 < k < n && q[k - 1] is Ident && (#[trigger] q[k]) is Ident ==> after[k].len() > 0
            &&& 1 + line_ends(s.take(i + more.len())) == line + line_ends(more)
            &&& is_gap(more) ==> is_so_far(
                s,
                i + more.len(),
                line + line_ends(more),
                toks,
                q,
                after,
            )
        }),
{
    let n = q.len() as int;
    let after = gaps.update(n, gaps[n] + more);
    let j = i + more.len();
    assert(s.take(j) =~= s.take(i) + more);
    lemma_line_ends(s.take(i), more);
    assert(s[i] == s.subrange(i, j)[0]);
    if n > 0 {
        lemma_same(q, gaps, q, after, n - 1);
        let front = laid_out(q, gaps, n - 1) + token_text(q[n - 1]);
        assert(laid_out(q, after, n) =~= laid_out(q, gaps, n) + more);
    } else {
        assert(laid_out(q, after, 0) =~= laid_out(q, gaps, 0) + more);
    }
    assert forall|k: int|
        0 < k < after.len() && q[k - 1] is Ident && (#[trigger] after[k]).len()
            > 0 implies !is_word_char(after[k][0]) by {
        if k == n {
            if gaps[n].len() > 0 {
                assert(after[n][0] == gaps[n][0]);
            } else {
                assert(after[n][0] == more[0]);
            }
        } else {
            assert(after[k] == gaps[k]);
        }
    }
    assert forall|k: int|
        0 < k < n && q[k - 1] is Ident && (#[trigger] q[k]) is Ident implies after[k].len() > 0 by {
        assert(after[k] == gaps[k]);
    }
    if is_gap(more) {
        assert(is_gap(gaps[n]));
        lemma_gap_concat(gaps[n], more);
        assert forall|k: int| 0 <= k < after.len() implies is_gap(#[trigger] after[k]) by {
            if k < n {
                assert(after[k] == gaps[k]);
            }
        }
    }
}

/// One more token stands at `i`.
proof fn lemma_add(
    s: Name,
    i: int,
    line: nat,
    toks: Seq<TokenV>,
    q: Seq<TkV>,
    gaps: Seq<Name>,
    t: TkV,
)
    requires
        is_so_far(s, i, line, toks, q, gaps),
        i + token_text(t).len() <= s.len(),
        s.subrange(i, i + token_text(t).len()) == token_text(t),
        token_text(t).len() > 0,
        t is Ident ==> is_identifier(t->Ident_0),
        t is Ident && i + token_text(t).len() < s.len() ==> !is_word_char(
            s[i + token_text(t).len()],
        ),
        t is Ident && q.len() > 0 && q.last() is Ident ==> gaps.last().len() > 0,
        forall|k: int| 0 <= k < token_text(t).len() ==> #[trigger] token_text(t)[k] != '\n',
    ensures
        is_so_far(
            s,
            i + token_text(t).len(),
            line,
            toks.push(TokenV { tk: t, line }),
            q.push(t),
            gaps.push(Seq::empty()),
        ),
{
    let n = q.len() as int;
    let p = q.push(t);
    let after = gaps.push(Seq::empty());
    let w = token_text(t);
    let j = i + w.len();
    lemma_same(q, gaps, p, after, n);
    assert(s.take(j) =~= s.take(i) + w);
    lemma_line_ends(s.take(i), w);
    lemma_no_line_ends(w);
    assert(p[n] == t);
    assert(after[n + 1] == Seq::<char>::empty());
    assert(laid_out(p, after, n + 1) =~= laid_out(q, gaps, n) + w);
    assert(is_gap(Seq::empty()));
    assert forall|k: int| 0 <= k < after.len() implies is_gap(#[trigger] after[k]) by {
        if k <= n {
            assert(after[k] == gaps[k]);
        }
    }
    assert forall|k: int|
        0 < k < n + 1 && p[k - 1] is Ident && (#[trigger] p[k]) is Ident implies after[k].len()
        > 0 by {
        assert(after[k] == gaps[k]);
        assert(p[k - 1] == q[k - 1]);
        if k < n {
            assert(q[k] is Ident);
        } else {
            assert(gaps.last() == gaps[n]);
        }
    }
    assert forall|k: int|
        0 < k < after.len() && p[k - 1] is Ident && (#[trigger] after[k]).len()
            > 0 implies !is_word_char(after[k][0]) by {
        assert(after[k] == gaps[k]);
        assert(p[k - 1] == q[k - 1]);
    }
    assert(are_tokens(p)) by {
        assert forall|k: int| 0 <= k < p.len() && (#[trigger] p[k]) is Ident implies is_identifier(
            p[k]->Ident_0,
        ) by {
            if k < n {
                assert(p[k] == q[k]);
            }
        }
    }
}

proof fn lemma_line_end(s: Name, i: int)
    requires
        0 <= i <= s.len(),
    ensures
        i <= line_end(s, i) <= s.len(),
        forall|k: int| i <= k < line_end(s, i) ==> #[trigger] s[k] != '\n',
        line_end(s, i) < s.len() ==> s[line_end(s, i)] == '\n',
    decreases s.len() - i,
{
    if i < s.len() && s[i] != '\n' {
        lemma_line_end(s, i + 1);
    }
}

proof fn lemma_word_end(s: Name, i: int)
    requires
        0 <= i <= s.len(),
    ensures
        i <= word_end(s, i) <= s.len(),
        forall|k: int| i <= k < word_end(s, i) ==> is_word_char(#[trigger] s[k]),
        word_end(s, i) < s.len() ==> !is_word_char(s[word_end(s, i)]),
    decreases s.len() - i,
{
    if i < s.len() && is_word_char(s[i]) {
        lemma_word_end(s, i + 1);
    }
}

/// A text in which a comment stands at `i`.
proof fn lemma_comment(s: Name, i: int) -> (j: int)
    requires
        0 <= i,
        i + 1 < s.len(),
        s[i] == '/',
        s[i + 1] == '/',
    ensures
        j == line_end(s, i + 2),
        i + 2 <= j <= s.len(),
        is_comment(s.subrange(i, j)),
        j < s.len() ==> s[j] == '\n' && is_gap(s.subrange(i, j + 1)) && line_ends(
            s.subrange(i, j + 1),
        ) == 1,
        line_ends(s.subrange(i, j)) == 0,
{
    lemma_line_end(s, i + 2);
    let j = line_end(s, i + 2);
    let w = s.subrange(i, j);
    assert forall|k: int| 0 <= k < w.len() implies #[trigger] w[k] != '\n' by {
        assert(w[k] == s[i + k]);
    }
    lemma_no_line_ends(w);
    if j < s.len() {
        let g = s.subrange(i, j + 1);
        let n = j - i;
        assert(g.take(n) =~= w);
        assert(g[n] == '\n');
        let last = g.skip(n);
        assert(last =~= seq!['\n']);
        assert(last.skip(1) =~= Seq::<char>::empty());
        assert(is_gap(last.skip(1)));
        assert(is_blank(last[0]));
        assert(is_gap(last));
        assert(comment_ends(g, n));
        assert(g =~= w + last);
        lemma_line_ends(w, last);
        assert(last.drop_last() =~= Seq::<char>::empty());
        assert(line_ends(Seq::<char>::empty()) == 0);
    }
    j
}

/// Some layout accounts for the tokens.
spec fn has_account(s: Name, toks: Seq<TokenV>) -> bool {
    exists|q: Seq<TkV>, gaps: Seq<Name>| #[trigger] is_accounted(s, q, gaps, toks)
}

proof fn lemma_end(s: Name, line: nat, toks: Seq<TokenV>, q: Seq<TkV>, gaps: Seq<Name>)
    requires
        is_so_far(s, s.len() as int, line, toks, q, gaps),
    ensures
        has_account(s, toks),
{
    assert(s.take(s.len() as int) =~= s);
    assert(is_gap(gaps[q.len() as int]));
    assert(is_accounted(s, q, gaps, toks));
}

proof fn lemma_accounted(
    s: Name,
    i: int,
    line: nat,
    toks: Seq<TokenV>,
    q: Seq<TkV>,
    gaps: Seq<Name>,
    out: Seq<TokenV>,
)
    requires
        is_so_far(s, i, line, toks, q, gaps),
        lexed(s, i, line, toks) == Ok::<Seq<TokenV>, Name>(out),
    ensures
        has_account(s, out),
    decreases s.len() - i,
{
    let n = q.len() as int;
    if i == s.len() {
        lemma_end(s, line, toks, q, gaps);
    } else if is_blank(s[i]) {
        let g = seq![s[i]];
        assert(s.subrange(i, i + 1) =~= g);
        assert(g.skip(1) =~= Seq::<char>::empty());
        assert(is_gap(g.skip(1)));
        assert(is_gap(g));
        lemma_grow(s, i, line, toks, q, gaps, g);
        assert(g.drop_last() =~= Seq::<char>::empty());
        assert(line_ends(Seq::<char>::empty()) == 0);
        lemma_accounted(
            s,
            i + 1,
            line + line_ends(g),
            toks,
            q,
            gaps.update(n, gaps[n] + g),
            out,
        );
    } else if s[i] == '/' && i + 1 < s.len() && s[i + 1] == '/' {
        let j = lemma_comment(s, i);
        if j < s.len() {
            let g = s.subrange(i, j + 1);
            lemma_grow(s, i, line, toks, q, gaps, g);
            assert(lexed(s, j, line, toks) == lexed(s, j + 1, line + 1, toks));
            lemma_accounted(s, j + 1, line + 1, toks, q, gaps.update(n, gaps[n] + g), out);
        } else {
            let g = s.subrange(i, j);
            let after = gaps.update(n, gaps[n] + g);
            lemma_grow(s, i, line, toks, q, gaps, g);
            assert(s.take(j) =~= s);
            assert(is_gap(gaps[n]));
            let all = gaps[n] + g;
            let m = gaps[n].len() as int;
            assert(all.take(m) =~= gaps[n]);
            assert(all.skip(m) =~= g);
            assert(is_tail(all));
            assert(after.last() == all);
            assert forall|k: int| 0 <= k < n implies is_gap(#[trigger] after[k]) by {
                assert(after[k] == gaps[k]);
            }
            assert(lexed(s, j, line, toks) == Ok::<Seq<TokenV>, Name>(toks));
            assert(is_accounted(s, q, after, out));
        }
    } else if punctuation(s[i]) is Some {
        let t = punctuation(s[i])->0;
        assert(token_text(t) =~= seq![s[i]]);
        assert(s.subrange(i, i + 1) =~= seq![s[i]]);
        lemma_add(s, i, line, toks, q, gaps, t);
        lemma_accounted(
            s,
            i + 1,
            line,
            toks.push(TokenV { tk: t, line }),
            q.push(t),
            gaps.push(Seq::empty()),
            out,
        );
    } else {
        lemma_word_end(s, i + 1);
        let j = word_end(s, i + 1);
        let w = s.subrange(i, j);
        let t = TkV::Ident(w);
        assert(is_word_char(s[i]));
        assert(w[0] == s[i]);
        assert(is_identifier(w)) by {
            assert forall|k: int| 0 <= k < w.len() implies is_word_char(#[trigger] w[k]) by {
                assert(w[k] == s[i + k]);
            }
        }
        assert forall|k: int| 0 <= k < w.len() implies #[trigger] w[k] != '\n' by {
            assert(is_word_char(w[k]));
        }
        if n > 0 && q.last() is Ident {
            assert(q[n - 1] is Ident);
            assert(gaps.last() == gaps[n]);
        }
        lemma_add(s, i, line, toks, q, gaps, t);
        lemma_accounted(
            s,
            j,
            line,
            toks.push(TokenV { tk: t, line }),
            q.push(t),
            gaps.push(Seq::empty()),
            out,
        );
    }
}

/// Lexing accounts for every character: a text is lexed to tokens exactly if it
/// is a layout of them, with white space and comments between them, and each of
/// them starts on its line. Every other text is refused.
pub proof fn lexing_accounts_for_every_character(s: Name, toks: Seq<TokenV>)
    ensures
        lexed(s, 0, 1, Seq::empty()) == Ok::<Seq<TokenV>, Name>(toks) <==> exists|
            q: Seq<TkV>,
            gaps: Seq<Name>,
        | #[trigger] is_accounted(s, q, gaps, toks),
{
    if lexed(s, 0, 1, Seq::empty()) == Ok::<Seq<TokenV>, Name>(toks) {
        let q = Seq::<TkV>::empty();
        let gaps = seq![Seq::<char>::empty()];
        assert(s.take(0) =~= gaps[0]);
        assert(laid_out(q, gaps, 0) == gaps[0]);
        assert(placed(q, gaps, 0) == Seq::<TokenV>::empty());
        assert(is_gap(Seq::<char>::empty()));
        assert(line_ends(Seq::<char>::empty()) == 0);
        assert(is_so_far(s, 0, 1, Seq::empty(), q, gaps));
        lemma_accounted(s, 0, 1, Seq::empty(), q, gaps, toks);
    }
    if exists|q: Seq<TkV>, gaps: Seq<Name>| #[trigger] is_accounted(s, q, gaps, toks) {
        let (q, gaps) = choose|q: Seq<TkV>, gaps: Seq<Name>| #[trigger]
            is_accounted(s, q, gaps, toks);
        laid_out_tokens_are_lexed(q, gaps, s);
    }
}

/// At `i` stands a character that is part of no token, white space or comment, and
/// the message names it and its line.
pub open spec fn is_refused_at(s: Name, i: int, e: Name) -> bool {
    &&& 0 <= i < s.len()
    &&& !is_blank(s[i])
    &&& !is_letter(s[i])
    &&& s[i] != '_' && s[i] != ':' && s[i] != '{' && s[i] != '}' && s[i] != '(' && s[i] != ')'
        && s[i] != ','
    &&& !(s[i] == '/' && i + 1 < s.len() && s[i + 1] == '/')
    &&& e == "line "@ + dec(1 + line_ends(s.take(i))) + ": unexpected character '"@ + seq![s[i]]
        + "'"@
}

/// A text that is refused is refused for a character that cannot stand there: the
/// message names it and the line that it stands on.
pub proof fn refusals_name_the_character_and_its_line(s: Name, e: Name)
    requires
        lexed(s, 0, 1, Seq::empty()) == Err::<Seq<TokenV>, Name>(e),
    ensures
        exists|i: int| is_refused_at(s, i, e),
{
    assert(s.take(0) =~= Seq::<char>::empty());
    assert(line_ends(Seq::<char>::empty()) == 0);
    lemma_refused(s, 0, 1, Seq::empty(), e);
}

proof fn lemma_lines(s: Name, i: int, j: int)
    requires
        0 <= i <= j <= s.len(),
    ensures
        line_ends(s.take(j)) == line_ends(s.take(i)) + line_ends(s.subrange(i, j)),
{
    assert(s.take(j) =~= s.take(i) + s.subrange(i, j));
    lemma_line_ends(s.take(i), s.subrange(i, j));
}

proof fn lemma_refused(s: Name, i: int, line: nat, toks: Seq<TokenV>, e: Name)
    requires
        0 <= i <= s.len(),
        line == 1 + line_ends(s.take(i)),
        lexed(s, i, line, toks) == Err::<Seq<TokenV>, Name>(e),
    ensures
        exists|j: int| is_refused_at(s, j, e),
    decreases s.len() - i,
{
    assert(s.take(i + 1) =~= s.take(i).push(s[i]));
    assert(s.take(i + 1).drop_last() =~= s.take(i));
    if s[i] == '\n' {
        lemma_refused(s, i + 1, line + 1, toks, e);
    } else if is_blank(s[i]) {
        lemma_refused(s, i + 1, line, toks, e);
    } else if s[i] == '/' && i + 1 < s.len() && s[i + 1] == '/' {
        let j = lemma_comment(s, i);
        lemma_lines(s, i, j);
        lemma_refused(s, j, line, toks, e);
    } else if punctuation(s[i]) is Some {
        let t = TokenV { tk: punctuation(s[i])->0, line };
        lemma_refused(s, i + 1, line, toks.push(t), e);
    } else if is_letter(s[i]) || s[i] == '_' {
        lemma_word_end(s, i + 1);
        let j = word_end(s, i + 1);
        let w = s.subrange(i, j);
        assert forall|k: int| 0 <= k < w.len() implies #[trigger] w[k] != '\n' by {
            if k > 0 {
                assert(w[k] == s[i + k]);
                assert(is_word_char(s[i + k]));
            }
        }
        lemma_no_line_ends(w);
        lemma_lines(s, i, j);
        lemma_refused(s, j, line, toks.push(TokenV { tk: TkV::Ident(w), line }), e);
    } else {
        assert(is_refused_at(s, i, e));
    }
}

}
