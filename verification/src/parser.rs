//! Hand-written lexer and recursive-descent parser for the `.whorl` language,
//! line-tracked for source-accurate witnesses.
//!
//! The lexer decodes by `char`, so multi-byte UTF-8 is no special case, and block
//! nesting is depth-bounded so deeply nested input produces a clean error
//! instead of a stack overflow.

use vstd::prelude::*;

use crate::ast::{block_view, stmt_view, Ast, Func, FuncV, Item, ItemV, Stmt, StmtV};
use crate::text::{chars_of, dec, names, push_dec, str_eq, text_of, Name};
use crate::unicode::{
    blank, is_blank, is_letter, is_letter_or_number, letter, letter_or_number, quote, quoted,
};

verus! {

/// Maximum block-nesting depth. Past this the parser returns an error rather
/// than recursing into a stack overflow.
pub const MAX_PARSE_DEPTH: usize = 512;

/// A token.
#[derive(Debug)]
pub enum Tk {
    Ident(String),
    Colon,
    LBrace,
    RBrace,
    LParen,
    RParen,
    Comma,
}

/// A token and the line it stands on.
pub struct Token {
    pub tk: Tk,
    pub line: usize,
}

/// The mathematical value of a [`Tk`].
pub enum TkV {
    Ident(Name),
    Colon,
    LBrace,
    RBrace,
    LParen,
    RParen,
    Comma,
}

/// The mathematical value of a [`Token`].
pub struct TokenV {
    pub tk: TkV,
    pub line: nat,
}

impl View for Tk {
    type V = TkV;

    open spec fn view(&self) -> TkV {
        match self {
            Tk::Ident(s) => TkV::Ident(s@),
            Tk::Colon => TkV::Colon,
            Tk::LBrace => TkV::LBrace,
            Tk::RBrace => TkV::RBrace,
            Tk::LParen => TkV::LParen,
            Tk::RParen => TkV::RParen,
            Tk::Comma => TkV::Comma,
        }
    }
}

impl View for Token {
    type V = TokenV;

    open spec fn view(&self) -> TokenV {
        TokenV { tk: self.tk@, line: self.line as nat }
    }
}

/// The values of a sequence of tokens.
pub open spec fn token_views(v: Seq<Token>) -> Seq<TokenV> {
    v.map_values(|t: Token| t@)
}

/// The token that a character is by itself.
pub open spec fn punctuation(c: char) -> Option<TkV> {
    if c == ':' {
        Some(TkV::Colon)
    } else if c == '{' {
        Some(TkV::LBrace)
    } else if c == '}' {
        Some(TkV::RBrace)
    } else if c == '(' {
        Some(TkV::LParen)
    } else if c == ')' {
        Some(TkV::RParen)
    } else if c == ',' {
        Some(TkV::Comma)
    } else {
        None
    }
}

/// The end of the line that `i` is on.
pub open spec fn line_end(s: Seq<char>, i: int) -> int
    decreases s.len() - i,
{
    if 0 <= i < s.len() && s[i] != '\n' {
        line_end(s, i + 1)
    } else {
        i
    }
}

pub open spec fn is_word_char(c: char) -> bool {
    is_letter_or_number(c) || c == '_'
}

/// The end of the word that `i` is in.
pub open spec fn word_end(s: Seq<char>, i: int) -> int
    decreases s.len() - i,
{
    if 0 <= i < s.len() && is_word_char(s[i]) {
        word_end(s, i + 1)
    } else {
        i
    }
}

/// The tokens of the text from `i` on, added to `toks`; `line` is the line that
/// `i` is on.
pub open spec fn lexed(s: Seq<char>, i: int, line: nat, toks: Seq<TokenV>) -> Result<
    Seq<TokenV>,
    Name,
>
    decreases s.len() - i,
{
    if !(0 <= i < s.len()) {
        Ok(toks)
    } else if s[i] == '\n' {
        lexed(s, i + 1, line + 1, toks)
    } else if is_blank(s[i]) {
        lexed(s, i + 1, line, toks)
    } else if s[i] == '/' && i + 1 < s.len() && s[i + 1] == '/' {
        let j = line_end(s, i + 2);
        if i < j <= s.len() {
            lexed(s, j, line, toks)
        } else {
            arbitrary()
        }
    } else if punctuation(s[i]) is Some {
        lexed(s, i + 1, line, toks.push(TokenV { tk: punctuation(s[i])->0, line }))
    } else if is_letter(s[i]) || s[i] == '_' {
        let j = word_end(s, i + 1);
        if i < j <= s.len() {
            lexed(s, j, line, toks.push(TokenV { tk: TkV::Ident(s.subrange(i, j)), line }))
        } else {
            arbitrary()
        }
    } else {
        Err("line "@ + dec(line) + ": unexpected character '"@ + seq![s[i]] + "'"@)
    }
}

/// Splits a text into tokens.
pub fn lex(src: &str) -> (r: Result<Vec<Token>, String>)
    ensures
        match r {
            Ok(v) => lexed(src@, 0, 1, Seq::empty()) == Ok::<Seq<TokenV>, Name>(token_views(v@)),
            Err(e) => lexed(src@, 0, 1, Seq::empty()) == Err::<Seq<TokenV>, Name>(e@),
        },
{
    let chars = chars_of(src);
    let ghost s = src@;
    let n: usize = chars.len();
    let mut toks: Vec<Token> = Vec::new();
    let mut i: usize = 0;
    let mut breaks: usize = 0;
    assert(token_views(toks@) =~= Seq::empty());
    while i < n
        invariant
            s == src@,
            s == chars@,
            n == s.len(),
            i <= n,
            breaks <= i,
            lexed(s, 0, 1, Seq::empty()) == lexed(
                s,
                i as int,
                (breaks + 1) as nat,
                token_views(toks@),
            ),
        decreases n - i,
    {
        let c: char = chars[i];
        let ghost before = token_views(toks@);
        let line: usize = breaks + 1;
        if c == '\n' {
            breaks = breaks + 1;
            i = i + 1;
        } else if blank(c) {
            i = i + 1;
        } else if c == '/' && i + 1 < n && chars[i + 1] == '/' {
            let start: usize = i;
            i = i + 2;
            while i < n && chars[i] != '\n'
                invariant
                    s == chars@,
                    n == s.len(),
                    start + 2 <= i <= n,
                    line_end(s, start + 2) == line_end(s, i as int),
                decreases n - i,
            {
                i = i + 1;
            }
        } else if let Some(tk) = punct(c) {
            let t = Token { tk, line };
            toks.push(t);
            assert(token_views(toks@) =~= before.push(t@));
            i = i + 1;
        } else if letter(c) || c == '_' {
            let start: usize = i;
            i = i + 1;
            while i < n && (letter_or_number(chars[i]) || chars[i] == '_')
                invariant
                    s == chars@,
                    n == s.len(),
                    start < i <= n,
                    word_end(s, start + 1) == word_end(s, i as int),
                decreases n - i,
            {
                i = i + 1;
            }
            let t = Token { tk: Tk::Ident(text_of(&chars, start, i)), line };
            toks.push(t);
            assert(token_views(toks@) =~= before.push(t@));
        } else {
            let mut e = "line ".to_string();
            push_dec(&mut e, line);
            e.append(": unexpected character '");
            e.push(c);
            e.append("'");
            assert(e@ =~= "line "@ + dec(line as nat) + ": unexpected character '"@ + seq![c]
                + "'"@);
            return Err(e);
        }
    }
    Ok(toks)
}

/// The token that a character is by itself.
fn punct(c: char) -> (r: Option<Tk>)
    ensures
        match r {
            Some(t) => punctuation(c) == Some(t@),
            None => punctuation(c) is None,
        },
{
    if c == ':' {
        Some(Tk::Colon)
    } else if c == '{' {
        Some(Tk::LBrace)
    } else if c == '}' {
        Some(Tk::RBrace)
    } else if c == '(' {
        Some(Tk::LParen)
    } else if c == ')' {
        Some(Tk::RParen)
    } else if c == ',' {
        Some(Tk::Comma)
    } else {
        None
    }
}

/// What is parsed from a position on: a value and the position behind it, or a
/// message.
pub type Parse<T> = Result<(T, int), Name>;

/// A token as it is shown in messages.
pub open spec fn shown_token(t: TkV) -> Name {
    match t {
        TkV::Ident(s) => "Ident("@ + quoted(s) + ")"@,
        TkV::Colon => "Colon"@,
        TkV::LBrace => "LBrace"@,
        TkV::RBrace => "RBrace"@,
        TkV::LParen => "LParen"@,
        TkV::RParen => "RParen"@,
        TkV::Comma => "Comma"@,
    }
}

/// `line {n}: {what}`.
pub open spec fn at_line(n: nat, what: Name) -> Name {
    "line "@ + dec(n) + ": "@ + what
}

/// The line of the token at `i`; 0 past the end.
pub open spec fn line_at(toks: Seq<TokenV>, i: int) -> nat {
    if 0 <= i < toks.len() {
        toks[i].line
    } else {
        0
    }
}

/// The token at `i` is `t`.
pub open spec fn is_at(toks: Seq<TokenV>, i: int, t: TkV) -> bool {
    0 <= i < toks.len() && toks[i].tk == t
}

/// The token at `i` is the word `kw`.
pub open spec fn is_word(toks: Seq<TokenV>, i: int, kw: Name) -> bool {
    is_at(toks, i, TkV::Ident(kw))
}

/// The token `want`.
pub open spec fn expect(toks: Seq<TokenV>, i: int, want: TkV) -> Parse<()> {
    if is_at(toks, i, want) {
        Ok(((), i + 1))
    } else if 0 <= i < toks.len() {
        Err(
            at_line(
                toks[i].line,
                "expected "@ + shown_token(want) + ", found "@ + shown_token(toks[i].tk),
            ),
        )
    } else {
        Err("unexpected end of input, expected "@ + shown_token(want))
    }
}

/// The word `kw`.
pub open spec fn expect_word(toks: Seq<TokenV>, i: int, kw: Name) -> Parse<()> {
    if is_word(toks, i, kw) {
        Ok(((), i + 1))
    } else {
        Err(at_line(line_at(toks, i), "expected '"@ + kw + "'"@))
    }
}

/// Any identifier.
pub open spec fn parse_ident(toks: Seq<TokenV>, i: int) -> Parse<Name> {
    if 0 <= i < toks.len() {
        match toks[i].tk {
            TkV::Ident(s) => Ok((s, i + 1)),
            _ => Err(at_line(toks[i].line, "expected an identifier"@)),
        }
    } else {
        Err("unexpected end of input, expected an identifier"@)
    }
}

/// Further identifiers of a list, each after a comma, added to `q`.
pub open spec fn more_idents(toks: Seq<TokenV>, i: int, q: Seq<Name>) -> Parse<Seq<Name>>
    decreases toks.len() - i,
{
    if is_at(toks, i, TkV::Comma) {
        match parse_ident(toks, i + 1) {
            Err(e) => Err(e),
            Ok((x, j)) => if i < j <= toks.len() {
                more_idents(toks, j, q.push(x))
            } else {
                arbitrary()
            },
        }
    } else {
        Ok((q, i))
    }
}

/// One identifier or more, separated by commas.
pub open spec fn parse_idents(toks: Seq<TokenV>, i: int) -> Parse<Seq<Name>> {
    match parse_ident(toks, i) {
        Err(e) => Err(e),
        Ok((x, j)) => more_idents(toks, j, seq![x]),
    }
}

/// A parenthesised list of identifiers, separated by commas: function
/// parameters or call arguments.
pub open spec fn parse_list(toks: Seq<TokenV>, i: int) -> Parse<Seq<Name>> {
    match expect(toks, i, TkV::LParen) {
        Err(e) => Err(e),
        Ok((_, j)) => if is_at(toks, j, TkV::RParen) {
            Ok((Seq::empty(), j + 1))
        } else {
            match parse_idents(toks, j) {
                Err(e) => Err(e),
                Ok((q, k)) => match expect(toks, k, TkV::RParen) {
                    Err(e) => Err(e),
                    Ok((_, l)) => Ok((q, l)),
                },
            }
        },
    }
}

/// A block at nesting depth `depth`.
pub open spec fn parse_block(toks: Seq<TokenV>, i: int, depth: nat) -> Parse<Seq<StmtV>>
    decreases toks.len() - i, 0nat,
{
    if depth > MAX_PARSE_DEPTH {
        Err(at_line(line_at(toks, i), "block nesting deeper than 512 is not supported"@))
    } else {
        match expect(toks, i, TkV::LBrace) {
            Err(e) => Err(e),
            Ok((_, j)) => if i < j <= toks.len() {
                parse_stmts(toks, j, depth, Seq::empty())
            } else {
                arbitrary()
            },
        }
    }
}

/// The rest of a block, of which the statements `q` have been read.
pub open spec fn parse_stmts(toks: Seq<TokenV>, i: int, depth: nat, q: Seq<StmtV>) -> Parse<
    Seq<StmtV>,
>
    decreases toks.len() - i, 2nat,
{
    if is_at(toks, i, TkV::RBrace) {
        Ok((q, i + 1))
    } else if i >= toks.len() {
        Err("unexpected end of input inside a block"@)
    } else {
        match parse_stmt(toks, i, depth) {
            Err(e) => Err(e),
            Ok((s, j)) => if i < j <= toks.len() {
                parse_stmts(toks, j, depth, q.push(s))
            } else {
                arbitrary()
            },
        }
    }
}

/// A block inside the statement that starts at `i`.
pub open spec fn inner_block(toks: Seq<TokenV>, i: int, j: int, depth: nat) -> Parse<Seq<StmtV>>
    decreases toks.len() - i, 0nat,
{
    if i < j <= toks.len() {
        parse_block(toks, j, depth + 1)
    } else {
        arbitrary()
    }
}

/// One statement. `couple` and `with` are keywords only where no parenthesis
/// follows, so functions of these names can be called; `mask` is one only where
/// a block follows.
pub open spec fn parse_stmt(toks: Seq<TokenV>, i: int, depth: nat) -> Parse<StmtV>
    decreases toks.len() - i, 1nat,
{
    let line = line_at(toks, i);
    if is_word(toks, i, "couple"@) && !is_at(toks, i + 1, TkV::LParen) {
        match parse_ident(toks, i + 1) {
            Err(e) => Err(e),
            Ok((class, j)) => match inner_block(toks, i, j, depth) {
                Err(e) => Err(e),
                Ok((body, k)) => Ok((StmtV::Couple { class, line, body }, k)),
            },
        }
    } else if is_word(toks, i, "mask"@) && is_at(toks, i + 1, TkV::LBrace) {
        match inner_block(toks, i, i + 1, depth) {
            Err(e) => Err(e),
            Ok((body, k)) => Ok((StmtV::Mask { body }, k)),
        }
    } else if is_word(toks, i, "with"@) && !is_at(toks, i + 1, TkV::LParen) {
        if is_word(toks, i + 1, "ordered"@) {
            match parse_list(toks, i + 2) {
                Err(e) => Err(e),
                Ok((locks, j)) => if locks.len() == 0 {
                    Err(at_line(line, "ordered(...) needs at least one lock"@))
                } else {
                    match inner_block(toks, i, j, depth) {
                        Err(e) => Err(e),
                        Ok((body, k)) => Ok((StmtV::Ordered { locks, line, body }, k)),
                    }
                },
            }
        } else {
            match parse_ident(toks, i + 1) {
                Err(e) => Err(e),
                Ok((lock, j)) => match inner_block(toks, i, j, depth) {
                    Err(e) => Err(e),
                    Ok((body, k)) => Ok((StmtV::With { lock, line, body }, k)),
                },
            }
        }
    } else {
        match parse_ident(toks, i) {
            Err(e) => Err(e),
            Ok((callee, j)) => match parse_list(toks, j) {
                Err(e) => Err(e),
                Ok((args, k)) => Ok((StmtV::Call { callee, args, line }, k)),
            },
        }
    }
}

/// A function, from the word `fn` on.
#[verifier::opaque]
pub open spec fn parse_fn(toks: Seq<TokenV>, i: int, is_isr: bool) -> Parse<ItemV> {
    match expect_word(toks, i, "fn"@) {
        Err(e) => Err(e),
        Ok((_, j)) => match parse_ident(toks, j) {
            Err(e) => Err(e),
            Ok((name, k)) => match parse_list(toks, k) {
                Err(e) => Err(e),
                Ok((params, l)) => match parse_block(toks, l, 1) {
                    Err(e) => Err(e),
                    Ok((body, m)) => Ok((ItemV::Func(FuncV { name, params, body, is_isr }), m)),
                },
            },
        },
    }
}

/// A lock declaration, from the word `lock` on.
#[verifier::opaque]
pub open spec fn parse_lock(toks: Seq<TokenV>, i: int) -> Parse<ItemV> {
    match parse_ident(toks, i + 1) {
        Err(e) => Err(e),
        Ok((name, j)) => match expect(toks, j, TkV::Colon) {
            Err(e) => Err(e),
            Ok((_, k)) => match parse_ident(toks, k) {
                Err(e) => Err(e),
                Ok((class, l)) => Ok((ItemV::Lock { name, class }, l)),
            },
        },
    }
}

/// A foreign function, from its first word on.
#[verifier::opaque]
pub open spec fn parse_foreign(toks: Seq<TokenV>, i: int) -> Parse<ItemV> {
    match expect_word(toks, i + 1, "fn"@) {
        Err(e) => Err(e),
        Ok((_, j)) => match parse_ident(toks, j) {
            Err(e) => Err(e),
            Ok((name, k)) => if is_word(toks, k, "acquires"@) {
                match parse_idents(toks, k + 1) {
                    Err(e) => Err(e),
                    Ok((acquires, l)) => Ok((ItemV::Extern { name, acquires }, l)),
                }
            } else {
                Ok((ItemV::Extern { name, acquires: Seq::empty() }, k))
            },
        },
    }
}

/// One item.
#[verifier::opaque]
pub open spec fn parse_item(toks: Seq<TokenV>, i: int) -> Parse<ItemV> {
    if is_word(toks, i, "lock"@) {
        parse_lock(toks, i)
    } else if is_word(toks, i, "extern"@) {
        parse_foreign(toks, i)
    } else if is_word(toks, i, "isr"@) {
        parse_fn(toks, i + 1, true)
    } else if is_word(toks, i, "fn"@) {
        parse_fn(toks, i, false)
    } else {
        Err(at_line(line_at(toks, i), "expected 'lock', 'fn', 'isr', or 'extern'"@))
    }
}

/// The items from `i` to the end, added to `q`.
pub open spec fn parse_items(toks: Seq<TokenV>, i: int, q: Seq<ItemV>) -> Result<Seq<ItemV>, Name>
    decreases toks.len() - i,
{
    if i >= toks.len() {
        Ok(q)
    } else {
        match parse_item(toks, i) {
            Err(e) => Err(e),
            Ok((x, j)) => if i < j <= toks.len() {
                parse_items(toks, j, q.push(x))
            } else {
                arbitrary()
            },
        }
    }
}

/// The syntax tree of a text.
pub open spec fn parsed(src: Name) -> Result<Seq<ItemV>, Name> {
    match lexed(src, 0, 1, Seq::empty()) {
        Err(e) => Err(e),
        Ok(toks) => parse_items(toks, 0, Seq::empty()),
    }
}

/// The tokens of a text.
struct Parser {
    toks: Vec<Token>,
}

impl Parser {
    spec fn all(&self) -> Seq<TokenV> {
        token_views(self.toks@)
    }

    fn line(&self, i: usize) -> (r: usize)
        ensures
            r == line_at(self.all(), i as int),
    {
        if i < self.toks.len() {
            self.toks[i].line
        } else {
            0
        }
    }

    fn at_end(&self, i: usize) -> (r: bool)
        ensures
            r == (i >= self.all().len()),
    {
        i >= self.toks.len()
    }

    fn peek_is(&self, i: usize, t: &Tk) -> (r: bool)
        ensures
            r == is_at(self.all(), i as int, t@),
            self.toks@.len() <= usize::MAX,
    {
        assert(self.toks.len() <= usize::MAX);
        i < self.toks.len() && same_token(&self.toks[i].tk, t)
    }

    fn peek_is_kw(&self, i: usize, kw: &str) -> (r: bool)
        ensures
            r == is_word(self.all(), i as int, kw@),
            self.toks@.len() <= usize::MAX,
    {
        assert(self.toks.len() <= usize::MAX);
        if i < self.toks.len() {
            match &self.toks[i].tk {
                Tk::Ident(s) => str_eq(s.as_str(), kw),
                _ => false,
            }
        } else {
            false
        }
    }

    fn expect(&self, i: usize, want: &Tk) -> (r: Result<usize, String>)
        ensures
            match r {
                Ok(j) => i < j <= self.toks@.len() && expect(self.all(), i as int, want@) == Ok::<
                    ((), int),
                    Name,
                >(((), j as int)),
                Err(e) => expect(self.all(), i as int, want@) == Err::<((), int), Name>(e@),
            },
    {
        if i < self.toks.len() {
            let t = &self.toks[i];
            if same_token(&t.tk, want) {
                return Ok(i + 1);
            }
            let mut what = "expected ".to_string();
            push_token(&mut what, want);
            what.append(", found ");
            push_token(&mut what, &t.tk);
            assert(what@ =~= "expected "@ + shown_token(want@) + ", found "@ + shown_token(t.tk@));
            Err(line_error(t.line, what.as_str()))
        } else {
            let mut e = "unexpected end of input, expected ".to_string();
            push_token(&mut e, want);
            Err(e)
        }
    }

    fn eat_kw(&self, i: usize, kw: &str) -> (r: Result<usize, String>)
        ensures
            match r {
                Ok(j) => i < j <= self.toks@.len() && expect_word(self.all(), i as int, kw@)
                    == Ok::<((), int), Name>(((), j as int)),
                Err(e) => expect_word(self.all(), i as int, kw@) == Err::<((), int), Name>(e@),
            },
    {
        if self.peek_is_kw(i, kw) {
            Ok(i + 1)
        } else {
            let mut what = "expected '".to_string();
            what.append(kw);
            what.append("'");
            Err(line_error(self.line(i), what.as_str()))
        }
    }

    fn eat_ident(&self, i: usize) -> (r: Result<(String, usize), String>)
        ensures
            match r {
                Ok((x, j)) => i < j <= self.toks@.len() && parse_ident(self.all(), i as int)
                    == Ok::<(Name, int), Name>((x@, j as int)),
                Err(e) => parse_ident(self.all(), i as int) == Err::<(Name, int), Name>(e@),
            },
    {
        if i < self.toks.len() {
            let t = &self.toks[i];
            match &t.tk {
                Tk::Ident(s) => Ok((s.clone(), i + 1)),
                _ => Err(line_error(t.line, "expected an identifier")),
            }
        } else {
            Err("unexpected end of input, expected an identifier".to_string())
        }
    }

    fn idents(&self, i: usize) -> (r: Result<(Vec<String>, usize), String>)
        ensures
            match r {
                Ok((v, j)) => i < j <= self.toks@.len() && parse_idents(self.all(), i as int)
                    == Ok::<(Seq<Name>, int), Name>((names(v@), j as int)),
                Err(e) => parse_idents(self.all(), i as int) == Err::<(Seq<Name>, int), Name>(e@),
            },
    {
        let (first, start) = self.eat_ident(i)?;
        let mut out: Vec<String> = Vec::new();
        out.push(first);
        assert(names(out@) =~= seq![first@]);
        let mut j: usize = start;
        while self.peek_is(j, &Tk::Comma)
            invariant
                i < j <= self.toks@.len(),
                parse_idents(self.all(), i as int) == more_idents(
                    self.all(),
                    j as int,
                    names(out@),
                ),
            decreases self.toks@.len() - j,
        {
            let ghost before = names(out@);
            let (x, k) = self.eat_ident(j + 1)?;
            out.push(x);
            assert(names(out@) =~= before.push(x@));
            j = k;
        }
        Ok((out, j))
    }

    /// Parses a parenthesised, comma-separated list of identifiers.
    fn ident_list(&self, i: usize) -> (r: Result<(Vec<String>, usize), String>)
        ensures
            match r {
                Ok((v, j)) => i < j <= self.toks@.len() && parse_list(self.all(), i as int)
                    == Ok::<(Seq<Name>, int), Name>((names(v@), j as int)),
                Err(e) => parse_list(self.all(), i as int) == Err::<(Seq<Name>, int), Name>(e@),
            },
    {
        let j: usize = self.expect(i, &Tk::LParen)?;
        if self.peek_is(j, &Tk::RParen) {
            let none: Vec<String> = Vec::new();
            assert(names(none@) =~= Seq::empty());
            return Ok((none, j + 1));
        }
        let (out, k) = self.idents(j)?;
        let l: usize = self.expect(k, &Tk::RParen)?;
        Ok((out, l))
    }

    fn block(&self, i: usize, depth: usize) -> (r: Result<(Vec<Stmt>, usize), String>)
        requires
            depth <= MAX_PARSE_DEPTH + 1,
        ensures
            match r {
                Ok((v, j)) => i < j <= self.toks@.len() && parse_block(
                    self.all(),
                    i as int,
                    depth as nat,
                ) == Ok::<(Seq<StmtV>, int), Name>((block_view(v@), j as int)),
                Err(e) => parse_block(self.all(), i as int, depth as nat) == Err::<
                    (Seq<StmtV>, int),
                    Name,
                >(e@),
            },
        decreases MAX_PARSE_DEPTH + 1 - depth, 1nat,
    {
        if depth > MAX_PARSE_DEPTH {
            return Err(
                line_error(self.line(i), "block nesting deeper than 512 is not supported"),
            );
        }
        let start: usize = self.expect(i, &Tk::LBrace)?;
        let mut stmts: Vec<Stmt> = Vec::new();
        assert(block_view(stmts@) =~= Seq::empty());
        let mut j: usize = start;
        while !self.peek_is(j, &Tk::RBrace)
            invariant
                i < j <= self.toks@.len(),
                depth <= MAX_PARSE_DEPTH,
                parse_block(self.all(), i as int, depth as nat) == parse_stmts(
                    self.all(),
                    j as int,
                    depth as nat,
                    block_view(stmts@),
                ),
            decreases self.toks@.len() - j,
        {
            let ghost before = block_view(stmts@);
            if self.at_end(j) {
                return Err("unexpected end of input inside a block".to_string());
            }
            let (s, k) = self.stmt(j, depth)?;
            stmts.push(s);
            assert(block_view(stmts@) =~= before.push(stmt_view(s)));
            j = k;
        }
        Ok((stmts, j + 1))
    }

    fn stmt(&self, i: usize, depth: usize) -> (r: Result<(Stmt, usize), String>)
        requires
            depth <= MAX_PARSE_DEPTH,
            i < self.toks@.len(),
        ensures
            match r {
                Ok((s, j)) => i < j <= self.toks@.len() && parse_stmt(
                    self.all(),
                    i as int,
                    depth as nat,
                ) == Ok::<(StmtV, int), Name>((stmt_view(s), j as int)),
                Err(e) => parse_stmt(self.all(), i as int, depth as nat) == Err::<
                    (StmtV, int),
                    Name,
                >(e@),
            },
        decreases MAX_PARSE_DEPTH + 1 - depth, 0nat,
    {
        let line: usize = self.line(i);
        if self.peek_is_kw(i, "couple") && !self.peek_is(i + 1, &Tk::LParen) {
            let (class, j) = self.eat_ident(i + 1)?;
            let (body, k) = self.block(j, depth + 1)?;
            return Ok((Stmt::Couple { class, line, body }, k));
        }
        if self.peek_is_kw(i, "mask") && self.peek_is(i + 1, &Tk::LBrace) {
            let (body, k) = self.block(i + 1, depth + 1)?;
            return Ok((Stmt::Mask { body }, k));
        }
        if self.peek_is_kw(i, "with") && !self.peek_is(i + 1, &Tk::LParen) {
            if self.peek_is_kw(i + 1, "ordered") {
                let (locks, j) = self.ident_list(i + 2)?;
                if locks.len() == 0 {
                    return Err(line_error(line, "ordered(...) needs at least one lock"));
                }
                let (body, k) = self.block(j, depth + 1)?;
                return Ok((Stmt::Ordered { locks, line, body }, k));
            }
            let (lock, j) = self.eat_ident(i + 1)?;
            let (body, k) = self.block(j, depth + 1)?;
            return Ok((Stmt::With { lock, line, body }, k));
        }
        let (callee, j) = self.eat_ident(i)?;
        let (args, k) = self.ident_list(j)?;
        Ok((Stmt::Call { callee, args, line }, k))
    }

    fn fn_decl(&self, i: usize, is_isr: bool) -> (r: Result<(Item, usize), String>)
        ensures
            match r {
                Ok((x, j)) => i < j <= self.toks@.len() && parse_fn(self.all(), i as int, is_isr)
                    == Ok::<(ItemV, int), Name>((x@, j as int)),
                Err(e) => parse_fn(self.all(), i as int, is_isr) == Err::<(ItemV, int), Name>(e@),
            },
    {
        reveal(parse_fn);
        let j: usize = self.eat_kw(i, "fn")?;
        let (name, k) = self.eat_ident(j)?;
        let (params, l) = self.ident_list(k)?;
        let (body, m) = self.block(l, 1)?;
        Ok((Item::Func(Func { name, params, body, is_isr }), m))
    }

    fn lock_decl(&self, i: usize) -> (r: Result<(Item, usize), String>)
        requires
            i < self.toks@.len(),
        ensures
            match r {
                Ok((x, j)) => i < j <= self.toks@.len() && parse_lock(self.all(), i as int)
                    == Ok::<(ItemV, int), Name>((x@, j as int)),
                Err(e) => parse_lock(self.all(), i as int) == Err::<(ItemV, int), Name>(e@),
            },
    {
        reveal(parse_lock);
        assert(self.toks.len() <= usize::MAX);
        let (name, j) = self.eat_ident(i + 1)?;
        let k: usize = self.expect(j, &Tk::Colon)?;
        let (class, l) = self.eat_ident(k)?;
        Ok((Item::Lock { name, class }, l))
    }

    fn extern_decl(&self, i: usize) -> (r: Result<(Item, usize), String>)
        requires
            i < self.toks@.len(),
        ensures
            match r {
                Ok((x, j)) => i < j <= self.toks@.len() && parse_foreign(self.all(), i as int)
                    == Ok::<(ItemV, int), Name>((x@, j as int)),
                Err(e) => parse_foreign(self.all(), i as int) == Err::<(ItemV, int), Name>(e@),
            },
    {
        reveal(parse_foreign);
        assert(self.toks.len() <= usize::MAX);
        let j: usize = self.eat_kw(i + 1, "fn")?;
        let (name, k) = self.eat_ident(j)?;
        if self.peek_is_kw(k, "acquires") {
            let (acquires, l) = self.idents(k + 1)?;
            return Ok((Item::Extern { name, acquires }, l));
        }
        let acquires: Vec<String> = Vec::new();
        assert(names(acquires@) =~= Seq::empty());
        Ok((Item::Extern { name, acquires }, k))
    }

    fn item(&self, i: usize) -> (r: Result<(Item, usize), String>)
        requires
            i < self.toks@.len(),
        ensures
            match r {
                Ok((x, j)) => i < j <= self.toks@.len() && parse_item(self.all(), i as int)
                    == Ok::<(ItemV, int), Name>((x@, j as int)),
                Err(e) => parse_item(self.all(), i as int) == Err::<(ItemV, int), Name>(e@),
            },
    {
        reveal(parse_item);
        if self.peek_is_kw(i, "lock") {
            self.lock_decl(i)
        } else if self.peek_is_kw(i, "extern") {
            self.extern_decl(i)
        } else if self.peek_is_kw(i, "isr") {
            self.fn_decl(i + 1, true)
        } else if self.peek_is_kw(i, "fn") {
            self.fn_decl(i, false)
        } else {
            Err(line_error(self.line(i), "expected 'lock', 'fn', 'isr', or 'extern'"))
        }
    }

    fn program(&self) -> (r: Result<Ast, String>)
        ensures
            match r {
                Ok(a) => parse_items(self.all(), 0, Seq::empty()) == Ok::<Seq<ItemV>, Name>(a@),
                Err(e) => parse_items(self.all(), 0, Seq::empty()) == Err::<Seq<ItemV>, Name>(e@),
            },
    {
        let mut items: Vec<Item> = Vec::new();
        let ghost f = |x: Item| x@;
        let mut i: usize = 0;
        assert(items@.map_values(f) =~= Seq::empty());
        while !self.at_end(i)
            invariant
                f == (|x: Item| x@),
                i <= self.toks@.len(),
                parse_items(self.all(), 0, Seq::empty()) == parse_items(
                    self.all(),
                    i as int,
                    items@.map_values(f),
                ),
            decreases self.toks@.len() - i,
        {
            let ghost before = items@.map_values(f);
            let (x, j) = self.item(i)?;
            items.push(x);
            assert(items@.map_values(f) =~= before.push(x@));
            i = j;
        }
        Ok(Ast { items })
    }
}

fn same_token(a: &Tk, b: &Tk) -> (r: bool)
    ensures
        r == (a@ == b@),
{
    match (a, b) {
        (Tk::Ident(x), Tk::Ident(y)) => str_eq(x.as_str(), y.as_str()),
        (Tk::Colon, Tk::Colon) => true,
        (Tk::LBrace, Tk::LBrace) => true,
        (Tk::RBrace, Tk::RBrace) => true,
        (Tk::LParen, Tk::LParen) => true,
        (Tk::RParen, Tk::RParen) => true,
        (Tk::Comma, Tk::Comma) => true,
        _ => false,
    }
}

fn push_token(out: &mut String, t: &Tk)
    ensures
        final(out)@ == old(out)@ + shown_token(t@),
{
    let ghost before = out@;
    match t {
        Tk::Ident(s) => {
            out.append("Ident(");
            out.append(quote(s.as_str()).as_str());
            out.append(")");
        },
        Tk::Colon => out.append("Colon"),
        Tk::LBrace => out.append("LBrace"),
        Tk::RBrace => out.append("RBrace"),
        Tk::LParen => out.append("LParen"),
        Tk::RParen => out.append("RParen"),
        Tk::Comma => out.append("Comma"),
    }
    assert(out@ =~= before + shown_token(t@));
}

fn line_error(line: usize, what: &str) -> (e: String)
    ensures
        e@ == at_line(line as nat, what@),
{
    let mut e = "line ".to_string();
    push_dec(&mut e, line);
    e.append(": ");
    e.append(what);
    e
}

/// Parses a program into a syntax tree.
pub fn parse(src: &str) -> (r: Result<Ast, String>)
    ensures
        match r {
            Ok(a) => parsed(src@) == Ok::<Seq<ItemV>, Name>(a@),
            Err(e) => parsed(src@) == Err::<Seq<ItemV>, Name>(e@),
        },
{
    let toks = lex(src)?;
    let p = Parser { toks };
    p.program()
}

}
