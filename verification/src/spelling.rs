//! JSON documents in any layout: whatever the white space between the tokens and
//! the escapes inside the strings, a document is read as what it spells.

use vstd::prelude::*;

use crate::json::{
    digits_end, digits_value, field, find_key, hex_digit, hex_value, lemma_offset_bound, pair_code,
    read_array, read_document, read_items, read_members, read_object, read_string, read_text,
    read_unit, read_value, skip_space, unit_value, with_field, MemberV, ValueV,
};
use crate::text::{number, Name};

verus! {

/// White space: a space, tab, line feed, form feed or carriage return.
pub open spec fn is_white(c: char) -> bool {
    c == ' ' || c == '\t' || c == '\n' || c == '\x0C' || c == '\r'
}

/// The characters from `i` to `j` are white space.
pub open spec fn is_void(s: Name, i: int, j: int) -> bool {
    0 <= i <= j <= s.len() && forall|k: int| i <= k < j ==> is_white(#[trigger] s[k])
}

/// A character inside a string, and how it is spelled.
pub struct Piece {
    pub text: Name,
    pub c: char,
}

/// The value of one hexadecimal digit, in either case.
pub open spec fn is_hex(c: char, d: int) -> bool {
    ||| '0' <= c <= '9' && d == c as int - '0' as int
    ||| 'a' <= c <= 'f' && d == c as int - 'a' as int + 10
    ||| 'A' <= c <= 'F' && d == c as int - 'A' as int + 10
}

/// Four hexadecimal digits from position `i` of the text on make the number.
pub open spec fn is_hex_at(w: Name, i: int, n: int) -> bool {
    exists|a: int, b: int, c: int, d: int| #[trigger]
        are_digits(w, i, a, b, c, d) && n == a * 4096 + b * 256 + c * 16 + d
}

/// The four digits from position `i` of the text on.
pub open spec fn are_digits(w: Name, i: int, a: int, b: int, c: int, d: int) -> bool {
    is_hex(w[i], a) && is_hex(w[i + 1], b) && is_hex(w[i + 2], c) && is_hex(w[i + 3], d)
}

/// The ways to spell a character inside a string: as itself, unless it is a quote
/// or a backslash; by a backslash and a letter; by its code in four hexadecimal
/// digits; beyond these by the codes of a surrogate pair.
pub open spec fn is_piece(p: Piece) -> bool {
    ||| p.text == seq![p.c] && p.c != '"' && p.c != '\\'
    ||| p.text == seq!['\\', '"'] && p.c == '"'
    ||| p.text == seq!['\\', '\\'] && p.c == '\\'
    ||| p.text == seq!['\\', '/'] && p.c == '/'
    ||| p.text == seq!['\\', 'n'] && p.c == '\n'
    ||| p.text == seq!['\\', 't'] && p.c == '\t'
    ||| p.text == seq!['\\', 'r'] && p.c == '\r'
    ||| p.text == seq!['\\', 'b'] && p.c == '\x08'
    ||| p.text == seq!['\\', 'f'] && p.c == '\x0C'
    ||| is_code(p)
    ||| is_pair(p)
}

/// The character is spelled by its code.
pub open spec fn is_code(p: Piece) -> bool {
    &&& p.text.len() == 6
    &&& p.text[0] == '\\'
    &&& p.text[1] == 'u'
    &&& is_hex_at(p.text, 2, p.c as int)
}

/// The character is spelled by the codes of a surrogate pair.
pub open spec fn is_pair(p: Piece) -> bool {
    let n = p.c as int - 0x10000;
    &&& p.text.len() == 12
    &&& p.text[0] == '\\'
    &&& p.text[1] == 'u'
    &&& p.text[6] == '\\'
    &&& p.text[7] == 'u'
    &&& n >= 0
    &&& is_hex_at(p.text, 2, 0xD800 + n / 0x400)
    &&& is_hex_at(p.text, 8, 0xDC00 + n % 0x400)
}

/// The pieces one behind the other, and the quote that ends the string.
pub open spec fn pieces_text(q: Seq<Piece>) -> Name
    decreases q.len(),
{
    if q.len() == 0 {
        seq!['"']
    } else {
        q[0].text + pieces_text(q.drop_first())
    }
}

/// The string that the pieces spell.
pub open spec fn spelled(q: Seq<Piece>) -> Name {
    q.map_values(|p: Piece| p.c)
}

/// The characters from `i` to `j` are a string in quotes made of the pieces.
pub open spec fn is_string(s: Name, i: int, j: int, q: Seq<Piece>) -> bool {
    &&& 0 <= i < j <= s.len()
    &&& s[i] == '"'
    &&& s.subrange(i + 1, j) == pieces_text(q)
    &&& forall|k: int| 0 <= k < q.len() ==> is_piece(#[trigger] q[k])
}

/// The key of a member: where it stands, and its pieces.
pub struct KeyShape {
    pub from: int,
    pub to: int,
    pub pieces: Seq<Piece>,
}

/// Where a value stands, and its parts.
pub enum Shape {
    Text { from: int, to: int, pieces: Seq<Piece> },
    Number { from: int, to: int },
    List { from: int, to: int, items: Seq<Shape> },
    Table { from: int, to: int, keys: Seq<KeyShape>, items: Seq<Shape> },
}

/// The first position of a value.
pub open spec fn start(x: Shape) -> int {
    match x {
        Shape::Text { from, to, pieces } => from,
        Shape::Number { from, to } => from,
        Shape::List { from, to, items } => from,
        Shape::Table { from, to, keys, items } => from,
    }
}

/// The position behind a value.
pub open spec fn stop(x: Shape) -> int {
    match x {
        Shape::Text { from, to, pieces } => to,
        Shape::Number { from, to } => to,
        Shape::List { from, to, items } => to,
        Shape::Table { from, to, keys, items } => to,
    }
}

/// Between `i` and `j` there is the character `c`, at `m`, and white space.
pub open spec fn is_mark(s: Name, i: int, m: int, j: int, c: char) -> bool {
    is_void(s, i, m) && m < s.len() && s[m] == c && is_void(s, m + 1, j)
}

/// Between `i` and `j` there is the character `c`, and white space.
pub open spec fn has_mark(s: Name, i: int, j: int, c: char) -> bool {
    exists|m: int| #[trigger] is_mark(s, i, m, j, c)
}

/// At its place in the text the shape spells the value.
pub open spec fn spells(s: Name, x: Shape, v: ValueV) -> bool
    decreases x,
{
    match x {
        Shape::Text { from, to, pieces } => is_string(s, from, to, pieces) && v == ValueV::Str(
            spelled(pieces),
        ),
        Shape::Number { from, to } => {
            &&& 0 <= from < to <= s.len()
            &&& forall|k: int| from <= k < to ==> '0' <= #[trigger] s[k] <= '9'
            &&& to < s.len() ==> !('0' <= s[to] <= '9')
            &&& number(s.subrange(from, to)) <= usize::MAX
            &&& v == ValueV::Num(number(s.subrange(from, to)) as nat)
        },
        Shape::List { from, to, items } => {
            &&& v is Arr
            &&& v->Arr_0.len() == items.len()
            &&& 0 <= from
            &&& from + 1 < to <= s.len()
            &&& s[from] == '['
            &&& s[to - 1] == ']'
            &&& items.len() == 0 ==> is_void(s, from + 1, to - 1)
            &&& items.len() > 0 ==> is_void(s, from + 1, start(items[0])) && is_void(
                s,
                stop(items[items.len() - 1]),
                to - 1,
            )
            &&& forall|k: int|
                0 <= k < items.len() - 1 ==> has_mark(
                    s,
                    stop(#[trigger] items[k]),
                    start(items[k + 1]),
                    ',',
                )
            &&& forall|k: int|
                0 <= k < items.len() ==> spells(s, #[trigger] items[k], v->Arr_0[k])
        },
        Shape::Table { from, to, keys, items } => {
            &&& v is Obj
            &&& v->Obj_0.len() == items.len()
            &&& keys.len() == items.len()
            &&& 0 <= from
            &&& from + 1 < to <= s.len()
            &&& s[from] == '{'
            &&& s[to - 1] == '}'
            &&& items.len() == 0 ==> is_void(s, from + 1, to - 1)
            &&& items.len() > 0 ==> is_void(s, from + 1, keys[0].from) && is_void(
                s,
                stop(items[items.len() - 1]),
                to - 1,
            )
            &&& forall|k: int|
                0 <= k < items.len() - 1 ==> has_mark(
                    s,
                    stop(#[trigger] items[k]),
                    keys[k + 1].from,
                    ',',
                )
            &&& forall|k: int|
                0 <= k < items.len() ==> {
                    &&& is_string(s, keys[k].from, keys[k].to, keys[k].pieces)
                    &&& has_mark(s, keys[k].to, start(#[trigger] items[k]), ':')
                    &&& v->Obj_0[k].key == spelled(keys[k].pieces)
                    &&& spells(s, items[k], v->Obj_0[k].value)
                }
            &&& forall|i: int, j: int|
                0 <= i < j < items.len() ==> (#[trigger] v->Obj_0[i]).key != (
                #[trigger] v->Obj_0[j]).key
        },
    }
}

proof fn lemma_void(s: Name, i: int, j: int)
    requires
        is_void(s, i, j),
        j < s.len() ==> !is_white(s[j]),
    ensures
        skip_space(s, i) == j,
    decreases j - i,
{
    if i < j {
        assert(is_white(s[i]));
        lemma_void(s, i + 1, j);
    }
}

proof fn lemma_hex(w: Name, i: int, n: int)
    requires
        0 <= i,
        i + 4 <= w.len(),
        is_hex_at(w, i, n),
    ensures
        unit_value(w.subrange(i, i + 4)) == Some(n as nat),
        n >= 0,
{
    let q = w.subrange(i, i + 4);
    let (a, b, c, d) = choose|a: int, b: int, c: int, d: int| #[trigger]
        are_digits(w, i, a, b, c, d) && n == a * 4096 + b * 256 + c * 16 + d;
    assert(q[0] == w[i] && q[1] == w[i + 1] && q[2] == w[i + 2] && q[3] == w[i + 3]);
    assert(hex_digit(q[0]) == Some(a as nat));
    assert(hex_digit(q[1]) == Some(b as nat));
    assert(hex_digit(q[2]) == Some(c as nat));
    assert(hex_digit(q[3]) == Some(d as nat));
    let q3 = q.drop_last();
    let q2 = q3.drop_last();
    let q1 = q2.drop_last();
    let q0 = q1.drop_last();
    assert(q0.len() == 0);
    assert(hex_value(q0) == Some(0nat));
    assert(q1.last() == q[0]);
    assert(hex_value(q1) == Some(a as nat));
    assert(q2.last() == q[1]);
    assert(hex_value(q2) == Some((a * 16 + b) as nat));
    assert(q3.last() == q[2]);
    assert(hex_value(q3) == Some(((a * 16 + b) * 16 + c) as nat));
    assert(hex_value(q) == Some((((a * 16 + b) * 16 + c) * 16 + d) as nat));
    assert(q[0] != '+');
}

/// A piece at `i` is read as its character.
proof fn lemma_piece(s: Name, i: int, p: Piece, out: Name)
    requires
        is_piece(p),
        0 <= i,
        i + p.text.len() <= s.len(),
        s.subrange(i, i + p.text.len()) == p.text,
    ensures
        p.text.len() > 0,
        read_text(s, i, out) == read_text(s, i + p.text.len(), out.push(p.c)),
{
    reveal(read_text);
    let w = s.subrange(i, i + p.text.len());
    assert(w[0] == s[i]);
    if p.text.len() >= 2 {
        assert(w[1] == s[i + 1]);
    }
    if p.text.len() >= 6 {
        lemma_offset_bound(s, i + 2);
        assert(s.subrange(i + 2, i + 6) =~= w.subrange(2, 6));
        if is_code(p) && !(p.text.len() == 12) {
            lemma_hex(p.text, 2, p.c as int);
            assert(read_unit(s, i + 2) == Ok::<nat, Name>(p.c as nat));
        } else {
            let n = p.c as int - 0x10000;
            lemma_offset_bound(s, i + 8);
            assert(s.subrange(i + 8, i + 12) =~= w.subrange(8, 12));
            lemma_hex(p.text, 2, 0xD800 + n / 0x400);
            lemma_hex(p.text, 8, 0xDC00 + n % 0x400);
            assert(w[6] == s[i + 6] && w[7] == s[i + 7]);
            let high = (0xD800 + n / 0x400) as nat;
            let low = (0xDC00 + n % 0x400) as nat;
            assert(read_unit(s, i + 2) == Ok::<nat, Name>(high));
            assert(read_unit(s, i + 8) == Ok::<nat, Name>(low));
            assert(pair_code(high, low) == p.c as nat);
        }
    }
}

proof fn lemma_pieces(s: Name, i: int, q: Seq<Piece>, out: Name)
    requires
        0 <= i,
        i + pieces_text(q).len() <= s.len(),
        s.subrange(i, i + pieces_text(q).len()) == pieces_text(q),
        forall|k: int| 0 <= k < q.len() ==> is_piece(#[trigger] q[k]),
    ensures
        read_text(s, i, out) == Ok::<(Name, int), Name>(
            (out + spelled(q), i + pieces_text(q).len()),
        ),
    decreases q.len(),
{
    let w = pieces_text(q);
    let t = s.subrange(i, i + w.len());
    if q.len() == 0 {
        reveal(read_text);
        assert(t[0] == s[i]);
        assert(out + spelled(q) =~= out);
    } else {
        let p = q[0];
        let r = q.drop_first();
        let n = p.text.len() as int;
        assert(s.subrange(i, i + n) =~= t.subrange(0, n));
        assert(w.subrange(0, n) =~= p.text);
        assert(s.subrange(i + n, i + w.len()) =~= t.subrange(n, w.len() as int));
        assert(w.subrange(n, w.len() as int) =~= pieces_text(r));
        lemma_piece(s, i, p, out);
        assert forall|k: int| 0 <= k < r.len() implies is_piece(#[trigger] r[k]) by {
            assert(r[k] == q[k + 1]);
        }
        lemma_pieces(s, i + n, r, out.push(p.c));
        assert(out.push(p.c) + spelled(r) =~= out + spelled(q));
    }
}

proof fn lemma_string(s: Name, i: int, j: int, to: int, q: Seq<Piece>)
    requires
        is_void(s, i, j),
        is_string(s, j, to, q),
    ensures
        read_string(s, i) == Ok::<(Name, int), Name>((spelled(q), to)),
{
    lemma_void(s, i, j);
    assert(pieces_text(q).len() == to - j - 1);
    lemma_pieces(s, j + 1, q, Seq::empty());
    assert(Seq::<char>::empty() + spelled(q) =~= spelled(q));
}

proof fn lemma_digits(s: Name, i: int, j: int)
    requires
        0 <= i <= j <= s.len(),
        forall|k: int| i <= k < j ==> '0' <= #[trigger] s[k] <= '9',
        j < s.len() ==> !('0' <= s[j] <= '9'),
    ensures
        digits_end(s, i) == j,
    decreases j - i,
{
    if i < j {
        assert('0' <= s[i] <= '9');
        lemma_digits(s, i + 1, j);
    }
}

/// Digits are read as the number that they stand for.
pub proof fn lemma_number(w: Name)
    requires
        forall|k: int| 0 <= k < w.len() ==> '0' <= #[trigger] w[k] <= '9',
    ensures
        digits_value(w) == number(w),
        number(w) >= 0,
    decreases w.len(),
{
    if w.len() > 0 {
        let r = w.drop_last();
        assert forall|k: int| 0 <= k < r.len() implies '0' <= #[trigger] r[k] <= '9' by {
            assert(r[k] == w[k]);
        }
        lemma_number(r);
        assert('0' <= w[w.len() - 1] <= '9');
    }
}

/// How a value starts.
proof fn lemma_start(s: Name, x: Shape, v: ValueV)
    requires
        spells(s, x, v),
    ensures
        0 <= start(x) < stop(x) <= s.len(),
        ({
            let c = s[start(x)];
            match x {
                Shape::Text { from, to, pieces } => c == '"',
                Shape::Number { from, to } => '0' <= c <= '9',
                Shape::List { from, to, items } => c == '[',
                Shape::Table { from, to, keys, items } => c == '{',
            }
        }),
{
}

/// A value is read as what it spells, whatever white space comes before it.
proof fn lemma_value(s: Name, i: int, x: Shape, v: ValueV)
    requires
        is_void(s, i, start(x)),
        spells(s, x, v),
    ensures
        read_value(s, i) == Ok::<(ValueV, int), Name>((v, stop(x))),
    decreases x, 1nat,
{
    let j = start(x);
    lemma_start(s, x, v);
    lemma_void(s, i, j);
    match x {
        Shape::Text { from, to, pieces } => {
            lemma_string(s, j, j, to, pieces);
        },
        Shape::Number { from, to } => {
            lemma_digits(s, from, to);
            let w = s.subrange(from, to);
            assert forall|k: int| 0 <= k < w.len() implies '0' <= #[trigger] w[k] <= '9' by {
                assert(w[k] == s[from + k]);
            }
            lemma_number(w);
        },
        Shape::List { from, to, items } => {
            lemma_void(s, from, from);
            if items.len() == 0 {
                lemma_void(s, from + 1, to - 1);
                assert(v->Arr_0 =~= Seq::empty());
                assert(v == ValueV::Arr(Seq::empty()));
            } else {
                let k = start(items[0]);
                assert(spells(s, items[0], v->Arr_0[0]));
                lemma_start(s, items[0], v->Arr_0[0]);
                lemma_void(s, from + 1, k);
                lemma_items(s, x, v, 0, k);
                assert(v->Arr_0.take(0) =~= Seq::empty());
                assert(read_array(s, from) == read_items(s, k, Seq::empty()));
            }
        },
        Shape::Table { from, to, keys, items } => {
            lemma_table(s, x, v);
        },
    }
}

proof fn lemma_table(s: Name, x: Shape, v: ValueV)
    requires
        x is Table,
        spells(s, x, v),
    ensures
        read_object(s, start(x)) == Ok::<(Seq<MemberV>, int), Name>((v->Obj_0, stop(x))),
    decreases x, 0nat,
{
    match x {
        Shape::Table { from, to, keys, items } => {
            lemma_void(s, from, from);
            if items.len() == 0 {
                lemma_void(s, from + 1, to - 1);
                assert(v->Obj_0 =~= Seq::empty());
            } else {
                let k = keys[0].from;
                assert(has_mark(s, keys[0].to, start(items[0]), ':'));
                assert(s[k] == '"');
                lemma_void(s, from + 1, k);
                lemma_members(s, x, v, 0, k);
                assert(v->Obj_0.take(0) =~= Seq::empty());
                assert(read_object(s, from) == read_members(s, k, Seq::empty()));
            }
        },
        _ => {},
    }
}

/// The items of an array from number `k` on are read.
proof fn lemma_items(s: Name, x: Shape, v: ValueV, k: int, i: int)
    requires
        x is List,
        spells(s, x, v),
        0 <= k < x->List_items.len(),
        is_void(s, i, start(x->List_items[k])),
    ensures
        read_items(s, i, v->Arr_0.take(k)) == Ok::<(ValueV, int), Name>((v, stop(x))),
    decreases x, 0nat, x->List_items.len() - k,
{
    let items = x->List_items;
    let vs = v->Arr_0;
    let e = stop(items[k]);
    assert(spells(s, items[k], vs[k]));
    lemma_start(s, items[k], vs[k]);
    lemma_value(s, i, items[k], vs[k]);
    assert(vs.take(k).push(vs[k]) =~= vs.take(k + 1));
    if k < items.len() - 1 {
        assert(has_mark(s, stop(items[k]), start(items[k + 1]), ','));
        let m = choose|m: int| #[trigger] is_mark(s, e, m, start(items[k + 1]), ',');
        lemma_void(s, e, m);
        lemma_items(s, x, v, k + 1, m + 1);
        assert(read_items(s, i, vs.take(k)) == read_items(s, m + 1, vs.take(k + 1)));
    } else {
        lemma_void(s, e, stop(x) - 1);
        assert(vs.take(k + 1) =~= vs);
    }
}

proof fn lemma_no_key(members: Seq<MemberV>, key: Name)
    requires
        forall|i: int| 0 <= i < members.len() ==> (#[trigger] members[i]).key != key,
    ensures
        find_key(members, key) is None,
    decreases members.len(),
{
    if members.len() > 0 {
        let r = members.drop_last();
        assert forall|i: int| 0 <= i < r.len() implies (#[trigger] r[i]).key != key by {
            assert(r[i] == members[i]);
        }
        lemma_no_key(r, key);
        assert(members[members.len() - 1].key != key);
    }
}

/// The members of an object from number `k` on are read.
proof fn lemma_members(s: Name, x: Shape, v: ValueV, k: int, i: int)
    requires
        x is Table,
        spells(s, x, v),
        0 <= k < x->Table_items.len(),
        is_void(s, i, x->keys[k].from),
    ensures
        read_members(s, i, v->Obj_0.take(k)) == Ok::<(Seq<MemberV>, int), Name>(
            (v->Obj_0, stop(x)),
        ),
    decreases x, 0nat, x->Table_items.len() - k,
{
    let items = x->Table_items;
    let key = x->keys[k];
    let ms = v->Obj_0;
    let e = stop(items[k]);
    assert(spells(s, items[k], ms[k].value) && has_mark(s, key.to, start(items[k]), ':'));
    lemma_start(s, items[k], ms[k].value);
    lemma_string(s, i, key.from, key.to, key.pieces);
    let c = choose|c: int| #[trigger] is_mark(s, key.to, c, start(items[k]), ':');
    lemma_void(s, key.to, c);
    lemma_value(s, c + 1, items[k], ms[k].value);
    let before = ms.take(k);
    assert forall|j: int| 0 <= j < before.len() implies (#[trigger] before[j]).key != ms[k].key by {
        assert(before[j] == ms[j]);
    }
    lemma_no_key(before, ms[k].key);
    assert(with_field(before, ms[k].key, ms[k].value) =~= ms.take(k + 1));
    if k < items.len() - 1 {
        assert(has_mark(s, stop(items[k]), x->keys[k + 1].from, ','));
        let m = choose|m: int| #[trigger] is_mark(s, e, m, x->keys[k + 1].from, ',');
        lemma_void(s, e, m);
        lemma_members(s, x, v, k + 1, m + 1);
        assert(read_members(s, i, before) == read_members(s, m + 1, ms.take(k + 1)));
    } else {
        lemma_void(s, e, stop(x) - 1);
        assert(ms.take(k + 1) =~= ms);
    }
}

/// A document is read as what it spells, in whatever layout: any white space
/// around its tokens, and any spelling of the characters in its strings.
pub proof fn documents_are_read_in_any_layout(s: Name, x: Shape, members: Seq<MemberV>)
    requires
        x is Table,
        spells(s, x, ValueV::Obj(members)),
        is_void(s, 0, start(x)),
        is_void(s, stop(x), s.len() as int),
    ensures
        read_document(s) == Ok::<Seq<MemberV>, Name>(members),
{
    lemma_start(s, x, ValueV::Obj(members));
    lemma_void(s, 0, start(x));
    lemma_table(s, x, ValueV::Obj(members));
    lemma_void(s, stop(x), s.len() as int);
}

/// The value of a key is that of the first member that bears it.
pub proof fn fields_are_those_of_the_first_member(obj: Seq<MemberV>, key: Name)
    ensures
        match field(obj, key) {
            Some(v) => exists|i: int|
                0 <= i < obj.len() && (#[trigger] obj[i]).key == key && obj[i].value == v
                    && forall|j: int| 0 <= j < i ==> (#[trigger] obj[j]).key != key,
            None => forall|i: int| 0 <= i < obj.len() ==> (#[trigger] obj[i]).key != key,
        },
{
    lemma_find(obj, key);
    if let Some(i) = find_key(obj, key) {
        assert(obj[i].key == key);
    }
}

proof fn lemma_find(obj: Seq<MemberV>, key: Name)
    ensures
        match find_key(obj, key) {
            Some(i) => 0 <= i < obj.len() && obj[i].key == key && forall|j: int|
                0 <= j < i ==> (#[trigger] obj[j]).key != key,
            None => forall|i: int| 0 <= i < obj.len() ==> (#[trigger] obj[i]).key != key,
        },
    decreases obj.len(),
{
    if obj.len() > 0 {
        let r = obj.drop_last();
        lemma_find(r, key);
        match find_key(r, key) {
            Some(i) => {
                assert(r[i] == obj[i]);
                assert forall|j: int| 0 <= j < i implies (#[trigger] obj[j]).key != key by {
                    assert(r[j] == obj[j]);
                }
            },
            None => {
                assert forall|j: int| 0 <= j < r.len() implies (#[trigger] obj[j]).key != key by {
                    assert(r[j] == obj[j]);
                }
            },
        }
    }
}

/// Of two members with the same key the later one stays, and the others are left
/// as they are: after a member is read, its key has its value, and every other
/// key has the value that it had.
pub proof fn later_members_win(obj: Seq<MemberV>, key: Name, value: ValueV, other: Name)
    ensures
        field(with_field(obj, key, value), key) == Some(value),
        other != key ==> field(with_field(obj, key, value), other) == field(obj, other),
{
    let after = with_field(obj, key, value);
    lemma_find(obj, key);
    lemma_find(after, key);
    lemma_find(obj, other);
    lemma_find(after, other);
    match find_key(obj, key) {
        Some(i) => {
            assert(after[i].key == key);
            let k = find_key(after, key)->0;
            if k < i {
                assert(obj[k] == after[k]);
            }
            if other != key {
                match find_key(obj, other) {
                    Some(a) => {
                        assert(after[a] == obj[a]);
                        let b = find_key(after, other)->0;
                        assert(after[b] == obj[b]);
                        assert(a == b);
                    },
                    None => {
                        if let Some(b) = find_key(after, other) {
                            assert(after[b].key == other);
                            assert(b != i);
                            assert(obj[b].key == other);
                        }
                    },
                }
            }
        },
        None => {
            let n = obj.len() as int;
            assert(after[n].key == key);
            let k = find_key(after, key)->0;
            if k < n {
                assert(obj[k] == after[k]);
            }
            if other != key {
                match find_key(obj, other) {
                    Some(a) => {
                        assert(after[a] == obj[a]);
                        let b = find_key(after, other)->0;
                        assert(b < n);
                        assert(after[b] == obj[b]);
                        assert(a == b);
                    },
                    None => {
                        if let Some(b) = find_key(after, other) {
                            assert(after[b].key == other);
                            assert(b < n);
                            assert(obj[b].key == other);
                        }
                    },
                }
            }
        },
    }
}

}
