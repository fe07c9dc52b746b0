//! What is no JSON document is refused: whatever is read is written in full, every
//! character of it, according to the grammar.

use vstd::prelude::*;

use crate::json::{
    code_char, digits_end, hex_digit, hex_value, is_high, low_follows, pair_code, read_array,
    read_char, read_code, read_document, read_items, read_members, read_object, read_string,
    read_text, read_unit, read_value, skip_space, unit_value, with_field, MemberV, ValueV,
};
use crate::spelling::{
    are_digits, has_mark, is_hex, is_hex_at, is_mark, is_piece, is_void, is_white, lemma_number,
    pieces_text, spelled, start, stop, KeyShape, Piece, Shape,
};
use crate::text::{number, Name};

verus! {

/// Three hexadecimal digits from position `i` of the text on make the number.
pub open spec fn is_short_hex_at(w: Name, i: int, n: int) -> bool {
    exists|b: int, c: int, d: int| #[trigger]
        are_short_digits(w, i, b, c, d) && n == b * 256 + c * 16 + d
}

/// The three digits from position `i` of the text on.
pub open spec fn are_short_digits(w: Name, i: int, b: int, c: int, d: int) -> bool {
    is_hex(w[i], b) && is_hex(w[i + 1], c) && is_hex(w[i + 2], d)
}

/// The code that an escape gives from position `i` on: four hexadecimal digits, or
/// a plus sign and three.
pub open spec fn is_unit_at(w: Name, i: int, n: int) -> bool {
    is_hex_at(w, i, n) || w[i] == '+' && is_short_hex_at(w, i + 1, n)
}

/// A character inside a string, as it may be written: in one of the ways to spell
/// it, or by one or two escapes, in which a plus sign may stand for the first
/// digit; a half of a surrogate pair stands for the replacement character.
pub open spec fn is_tolerated(p: Piece) -> bool {
    ||| is_piece(p)
    ||| is_escape(p)
    ||| is_escape_pair(p)
}

/// The character is written by one escape.
pub open spec fn is_escape(p: Piece) -> bool {
    &&& p.text.len() == 6
    &&& p.text[0] == '\\'
    &&& p.text[1] == 'u'
    &&& exists|n: int| #[trigger]
        is_unit_at(p.text, 2, n) && (p.c as int == n || 0xD800 <= n <= 0xDFFF && p.c == '\u{FFFD}')
}

/// The character is written by the two escapes of a surrogate pair.
pub open spec fn is_escape_pair(p: Piece) -> bool {
    &&& p.text.len() == 12
    &&& p.text[0] == '\\'
    &&& p.text[1] == 'u'
    &&& p.text[6] == '\\'
    &&& p.text[7] == 'u'
    &&& exists|h: int, l: int| #[trigger]
        is_unit_at(p.text, 2, h) && #[trigger] is_unit_at(p.text, 8, l) && 0xD800 <= h <= 0xDBFF
            && 0xDC00 <= l <= 0xDFFF && p.c as int == 0x10000 + (h - 0xD800) * 0x400 + (l - 0xDC00)
}

/// The characters from `i` to `j` are a string in quotes.
pub open spec fn is_quoted(s: Name, i: int, j: int, q: Seq<Piece>) -> bool {
    &&& 0 <= i < j <= s.len()
    &&& s[i] == '"'
    &&& s.subrange(i + 1, j) == pieces_text(q)
    &&& forall|k: int| 0 <= k < q.len() ==> is_tolerated(#[trigger] q[k])
}

/// The members that are read one after the other: of two with the same key the
/// later one stays.
pub open spec fn merged(raw: Seq<MemberV>) -> Seq<MemberV>
    decreases raw.len(),
{
    if raw.len() == 0 {
        Seq::empty()
    } else {
        with_field(merged(raw.drop_last()), raw.last().key, raw.last().value)
    }
}

/// The value that a shape stands for.
pub open spec fn value_of(s: Name, x: Shape) -> ValueV
    decreases x,
{
    match x {
        Shape::Text { from, to, pieces } => ValueV::Str(spelled(pieces)),
        Shape::Number { from, to } => ValueV::Num(number(s.subrange(from, to)) as nat),
        Shape::List { from, to, items } => ValueV::Arr(values_of(s, items)),
        Shape::Table { from, to, keys, items } => ValueV::Obj(merged(raw_members(s, keys, items))),
    }
}

/// The values that the shapes stand for.
pub open spec fn values_of(s: Name, items: Seq<Shape>) -> Seq<ValueV>
    decreases items,
{
    Seq::new(
        items.len(),
        |k: int|
            if 0 <= k < items.len() {
                value_of(s, items[k])
            } else {
                arbitrary()
            },
    )
}

/// The members that the keys and shapes stand for, one for each.
pub open spec fn raw_members(s: Name, keys: Seq<KeyShape>, items: Seq<Shape>) -> Seq<MemberV>
    decreases items,
{
    Seq::new(
        items.len(),
        |k: int|
            if 0 <= k < items.len() {
                MemberV { key: spelled(keys[k].pieces), value: value_of(s, items[k]) }
            } else {
                arbitrary()
            },
    )
}

/// The characters at the place of the shape are written according to the grammar.
pub open spec fn is_written(s: Name, x: Shape) -> bool
    decreases x,
{
    match x {
        Shape::Text { from, to, pieces } => is_quoted(s, from, to, pieces),
        Shape::Number { from, to } => {
            &&& 0 <= from < to <= s.len()
            &&& forall|k: int| from <= k < to ==> '0' <= #[trigger] s[k] <= '9'
            &&& number(s.subrange(from, to)) <= usize::MAX
        },
        Shape::List { from, to, items } => {
            &&& is_framed(s, from, to, '[', ']')
            &&& items.len() == 0 ==> is_void(s, from + 1, to - 1)
            &&& items.len() > 0 ==> is_void(s, from + 1, start(items[0])) && is_void(
                s,
                stop(items[items.len() - 1]),
                to - 1,
            )
            &&& forall|k: int|
                0 <= k < items.len() - 1 ==> has_mark(
                    s,
                    stop(#[trigger] items[k]),
                    start(items[k + 1]),
                    ',',
                )
            &&& forall|k: int| 0 <= k < items.len() ==> is_written(s, #[trigger] items[k])
        },
        Shape::Table { from, to, keys, items } => {
            &&& is_framed(s, from, to, '{', '}')
            &&& keys.len() == items.len()
            &&& items.len() == 0 ==> is_void(s, from + 1, to - 1)
            &&& items.len() > 0 ==> is_void(s, from + 1, keys[0].from) && is_void(
                s,
                stop(items[items.len() - 1]),
                to - 1,
            )
            &&& forall|k: int|
                0 <= k < items.len() - 1 ==> has_mark(
                    s,
                    stop(#[trigger] items[k]),
                    keys[k + 1].from,
                    ',',
                )
            &&& forall|k: int| 0 <= k < keys.len() ==> is_key(s, #[trigger] keys[k])
            &&& forall|k: int|
                0 <= k < items.len() ==> has_mark(
                    s,
                    keys[k].to,
                    start(#[trigger] items[k]),
                    ':',
                )
            &&& forall|k: int| 0 <= k < items.len() ==> is_written(s, #[trigger] items[k])
        },
    }
}

/// The key is a string in quotes.
pub open spec fn is_key(s: Name, key: KeyShape) -> bool {
    is_quoted(s, key.from, key.to, key.pieces)
}

/// The characters from `i` to `j` stand between two brackets.
pub open spec fn is_framed(s: Name, i: int, j: int, open: char, close: char) -> bool {
    0 <= i && i + 1 < j <= s.len() && s[i] == open && s[j - 1] == close
}

proof fn lemma_skipped(s: Name, i: int)
    requires
        0 <= i <= s.len(),
    ensures
        i <= skip_space(s, i) <= s.len(),
        is_void(s, i, skip_space(s, i)),
        skip_space(s, i) < s.len() ==> !is_white(s[skip_space(s, i)]),
    decreases s.len() - i,
{
    if i < s.len() && is_white(s[i]) {
        lemma_skipped(s, i + 1);
        let j = skip_space(s, i + 1);
        assert forall|k: int| i <= k < j implies is_white(#[trigger] s[k]) by {
            if k > i {
                assert(is_white(s[k]));
            }
        }
    }
}

proof fn lemma_hex_back(q: Seq<char>)
    requires
        unit_value(q) is Some,
        q.len() == 4,
    ensures
        is_unit_at(q, 0, unit_value(q)->0 as int),
        unit_value(q)->0 <= 0xFFFF,
{
    if q[0] == '+' {
        let r = q.drop_first();
        assert(r[0] == q[1] && r[1] == q[2] && r[2] == q[3]);
        let r2 = r.drop_last();
        let r1 = r2.drop_last();
        let r0 = r1.drop_last();
        assert(r0.len() == 0);
        assert(hex_value(r0) == Some(0nat));
        assert(r1.last() == q[1] && r2.last() == q[2] && r.last() == q[3]);
        assert(hex_value(r2) is Some);
        assert(hex_value(r1) is Some);
        let b = hex_digit(q[1])->0 as int;
        let c = hex_digit(q[2])->0 as int;
        let d = hex_digit(q[3])->0 as int;
        assert(hex_value(r1) == Some(b as nat));
        assert(hex_value(r2) == Some((b * 16 + c) as nat));
        assert(hex_value(r) == Some(((b * 16 + c) * 16 + d) as nat));
        assert(are_short_digits(q, 1, b, c, d));
        assert(is_short_hex_at(q, 1, unit_value(q)->0 as int));
    } else {
        let q3 = q.drop_last();
        let q2 = q3.drop_last();
        let q1 = q2.drop_last();
        let q0 = q1.drop_last();
        assert(q0.len() == 0);
        assert(hex_value(q0) == Some(0nat));
        assert(q1.last() == q[0] && q2.last() == q[1] && q3.last() == q[2] && q.last() == q[3]);
        assert(hex_value(q3) is Some);
        assert(hex_value(q2) is Some);
        assert(hex_value(q1) is Some);
        let a = hex_digit(q[0])->0 as int;
        let b = hex_digit(q[1])->0 as int;
        let c = hex_digit(q[2])->0 as int;
        let d = hex_digit(q[3])->0 as int;
        assert(hex_value(q1) == Some(a as nat));
        assert(hex_value(q2) == Some((a * 16 + b) as nat));
        assert(hex_value(q3) == Some(((a * 16 + b) * 16 + c) as nat));
        assert(hex_value(q) == Some((((a * 16 + b) * 16 + c) * 16 + d) as nat));
        assert(are_digits(q, 0, a, b, c, d));
        assert(is_hex_at(q, 0, unit_value(q)->0 as int));
    }
}

/// A code at `i` of a text is one at `j` of a part of it.
proof fn lemma_unit_moved(q: Name, w: Name, j: int, n: int)
    requires
        q.len() == 4,
        0 <= j,
        j + 4 <= w.len(),
        w.subrange(j, j + 4) == q,
        is_unit_at(q, 0, n),
    ensures
        is_unit_at(w, j, n),
{
    let t = w.subrange(j, j + 4);
    assert(t[0] == w[j] && t[1] == w[j + 1] && t[2] == w[j + 2] && t[3] == w[j + 3]);
    if is_hex_at(q, 0, n) {
        let (a, b, c, d) = choose|a: int, b: int, c: int, d: int| #[trigger]
            are_digits(q, 0, a, b, c, d) && n == a * 4096 + b * 256 + c * 16 + d;
        assert(are_digits(w, j, a, b, c, d));
    } else {
        let (b, c, d) = choose|b: int, c: int, d: int| #[trigger]
            are_short_digits(q, 1, b, c, d) && n == b * 256 + c * 16 + d;
        assert(are_short_digits(w, j + 1, b, c, d));
    }
}

/// The piece that an escape at `i` makes.
proof fn lemma_escape(s: Name, i: int) -> (p: Piece)
    requires
        0 <= i,
        i + 1 < s.len(),
        s[i] == '\\',
        s[i + 1] == 'u',
        read_code(s, i + 2) is Ok,
    ensures
        is_tolerated(p),
        p.text.len() > 0,
        i + p.text.len() <= s.len(),
        s.subrange(i, i + p.text.len()) == p.text,
        read_code(s, i + 2) == Ok::<(char, int), Name>((p.c, i + p.text.len())),
{
    let n = read_unit(s, i + 2)->Ok_0;
    let q = s.subrange(i + 2, i + 6);
    lemma_hex_back(q);
    if is_high(n) && low_follows(s, i + 6) {
        let l = read_unit(s, i + 8)->Ok_0;
        let r = s.subrange(i + 8, i + 12);
        lemma_hex_back(r);
        let text = s.subrange(i, i + 12);
        assert(text.subrange(2, 6) =~= q);
        assert(text.subrange(8, 12) =~= r);
        lemma_unit_moved(q, text, 2, n as int);
        lemma_unit_moved(r, text, 8, l as int);
        let p = Piece { text, c: code_char(pair_code(n, l)) };
        assert(text[0] == s[i] && text[1] == s[i + 1] && text[6] == s[i + 6] && text[7] == s[i
            + 7]);
        assert(is_unit_at(text, 2, n as int) && is_unit_at(text, 8, l as int));
        assert(is_escape_pair(p));
        p
    } else {
        let text = s.subrange(i, i + 6);
        assert(text.subrange(2, 6) =~= q);
        lemma_unit_moved(q, text, 2, n as int);
        let p = Piece { text, c: code_char(n) };
        assert(text[0] == s[i] && text[1] == s[i + 1]);
        assert(is_unit_at(text, 2, n as int));
        assert(is_escape(p));
        p
    }
}

/// The piece at `i`, if the text goes on there.
proof fn lemma_first_piece(s: Name, i: int, out: Name) -> (p: Piece)
    requires
        0 <= i < s.len(),
        s[i] != '"',
        read_text(s, i, out) is Ok,
    ensures
        is_tolerated(p),
        p.text.len() > 0,
        i + p.text.len() <= s.len(),
        s.subrange(i, i + p.text.len()) == p.text,
        read_text(s, i, out) == read_text(s, i + p.text.len(), out.push(p.c)),
{
    reveal(read_text);
    if s[i] != '\\' {
        let p = Piece { text: seq![s[i]], c: s[i] };
        assert(s.subrange(i, i + 1) =~= p.text);
        p
    } else if s[i + 1] == 'u' {
        lemma_escape(s, i)
    } else {
        let c = if s[i + 1] == 'n' {
            '\n'
        } else if s[i + 1] == 't' {
            '\t'
        } else if s[i + 1] == 'r' {
            '\r'
        } else if s[i + 1] == 'b' {
            '\x08'
        } else if s[i + 1] == 'f' {
            '\x0C'
        } else {
            s[i + 1]
        };
        let p = Piece { text: seq!['\\', s[i + 1]], c };
        assert(s.subrange(i, i + 2) =~= p.text);
        p
    }
}

proof fn lemma_text_back(s: Name, i: int, out: Name, r: Name, j: int) -> (q: Seq<Piece>)
    requires
        0 <= i <= s.len(),
        read_text(s, i, out) == Ok::<(Name, int), Name>((r, j)),
    ensures
        i < j <= s.len(),
        s.subrange(i, j) == pieces_text(q),
        forall|k: int| 0 <= k < q.len() ==> is_tolerated(#[trigger] q[k]),
        r == out + spelled(q),
    decreases s.len() - i,
{
    if i < s.len() && s[i] == '"' {
        reveal(read_text);
        let q = Seq::<Piece>::empty();
        assert(s.subrange(i, i + 1) =~= pieces_text(q));
        assert(r =~= out + spelled(q));
        q
    } else {
        assert(i < s.len()) by {
            reveal(read_text);
        }
        let p = lemma_first_piece(s, i, out);
        let n = p.text.len() as int;
        let rest = lemma_text_back(s, i + n, out.push(p.c), r, j);
        let q = seq![p] + rest;
        assert(q.drop_first() =~= rest);
        assert(q[0] == p);
        assert(s.subrange(i, j) =~= s.subrange(i, i + n) + s.subrange(i + n, j));
        assert forall|k: int| 0 <= k < q.len() implies is_tolerated(#[trigger] q[k]) by {
            if k > 0 {
                assert(q[k] == rest[k - 1]);
            }
        }
        assert(out.push(p.c) + spelled(rest) =~= out + spelled(q));
        q
    }
}

/// The string that is read stands there.
proof fn lemma_string_back(s: Name, i: int, r: Name, j: int) -> (q: Seq<Piece>)
    requires
        0 <= i <= s.len(),
        read_string(s, i) == Ok::<(Name, int), Name>((r, j)),
    ensures
        is_void(s, i, skip_space(s, i)),
        is_quoted(s, skip_space(s, i), j, q),
        r == spelled(q),
{
    lemma_skipped(s, i);
    let k = skip_space(s, i);
    let q = lemma_text_back(s, k + 1, Seq::empty(), r, j);
    assert(Seq::<char>::empty() + spelled(q) =~= spelled(q));
    q
}

/// The shape is what was read from `i` on, up to `j`, as the value.
spec fn is_account(s: Name, i: int, j: int, v: ValueV, x: Shape) -> bool {
    &&& is_written(s, x)
    &&& is_void(s, i, start(x))
    &&& start(x) < stop(x)
    &&& stop(x) == j
    &&& value_of(s, x) == v
}

proof fn lemma_digits_back(s: Name, i: int)
    requires
        0 <= i <= s.len(),
    ensures
        i <= digits_end(s, i) <= s.len(),
        forall|k: int| i <= k < digits_end(s, i) ==> '0' <= #[trigger] s[k] <= '9',
    decreases s.len() - i,
{
    if i < s.len() && '0' <= s[i] <= '9' {
        lemma_digits_back(s, i + 1);
    }
}

proof fn lemma_value_back(s: Name, i: int, v: ValueV, j: int) -> (x: Shape)
    requires
        0 <= i <= s.len(),
        read_value(s, i) == Ok::<(ValueV, int), Name>((v, j)),
    ensures
        is_account(s, i, j, v, x),
    decreases s.len() - i, 2nat,
{
    lemma_skipped(s, i);
    let k = skip_space(s, i);
    if k < s.len() && s[k] == '"' {
        lemma_skipped(s, k);
        let q = lemma_string_back(s, k, v->Str_0, j);
        Shape::Text { from: k, to: j, pieces: q }
    } else if k < s.len() && s[k] == '[' {
        let x = lemma_array_back(s, k, v, j);
        x
    } else if k < s.len() && s[k] == '{' {
        let x = lemma_object_back(s, k, v->Obj_0, j);
        x
    } else {
        lemma_digits_back(s, k);
        assert(digits_end(s, k) == digits_end(s, k + 1));
        lemma_digits_back(s, k + 1);
        let w = s.subrange(k, j);
        assert forall|m: int| 0 <= m < w.len() implies '0' <= #[trigger] w[m] <= '9' by {
            assert(w[m] == s[k + m]);
        }
        lemma_number(w);
        Shape::Number { from: k, to: j }
    }
}

proof fn lemma_array_back(s: Name, i: int, v: ValueV, j: int) -> (x: Shape)
    requires
        0 <= i < s.len(),
        s[i] == '[',
        read_array(s, i) == Ok::<(ValueV, int), Name>((v, j)),
    ensures
        is_account(s, i, j, v, x),
        start(x) == i,
    decreases s.len() - i, 1nat,
{
    assert(skip_space(s, i) == i);
    lemma_skipped(s, i + 1);
    let k = skip_space(s, i + 1);
    if k < s.len() && s[k] == ']' {
        let x = Shape::List { from: i, to: k + 1, items: Seq::empty() };
        assert(value_of(s, x)->Arr_0 =~= Seq::empty());
        x
    } else {
        assert(values_of(s, Seq::empty()) =~= Seq::empty());
        lemma_items_back(s, i, k, Seq::empty(), Seq::empty(), v, j)
    }
}

/// The items so far: written, with a comma behind each but the last, and `i` is
/// where the next one may start.
spec fn are_items(s: Name, from: int, i: int, items: Seq<Shape>) -> bool {
    &&& 0 <= from < i <= s.len()
    &&& s[from] == '['
    &&& items.len() == 0 ==> is_void(s, from + 1, i)
    &&& items.len() > 0 ==> is_void(s, from + 1, start(items[0])) && exists|m: int|
        m < i && #[trigger] is_mark(s, stop(items[items.len() - 1]), m, i, ',')
    &&& forall|k: int|
        0 <= k < items.len() - 1 ==> has_mark(s, stop(#[trigger] items[k]), start(items[k + 1]), ',')
    &&& forall|k: int| 0 <= k < items.len() ==> is_written(s, #[trigger] items[k])
}

proof fn lemma_void_join(s: Name, i: int, j: int, k: int)
    requires
        is_void(s, i, j),
        is_void(s, j, k),
    ensures
        is_void(s, i, k),
{
}

/// One more item.
proof fn lemma_next_item(s: Name, from: int, i: int, items: Seq<Shape>, y: Shape)
    requires
        are_items(s, from, i, items),
        is_void(s, i, start(y)),
        is_written(s, y),
    ensures
        ({
            let more = items.push(y);
            &&& is_void(s, from + 1, start(more[0]))
            &&& forall|k: int|
                0 <= k < more.len() - 1 ==> has_mark(
                    s,
                    stop(#[trigger] more[k]),
                    start(more[k + 1]),
                    ',',
                )
            &&& forall|k: int| 0 <= k < more.len() ==> is_written(s, #[trigger] more[k])
        }),
{
    let more = items.push(y);
    let n = items.len() as int;
    if n > 0 {
        let m = choose|m: int| m < i && #[trigger] is_mark(s, stop(items[n - 1]), m, i, ',');
        lemma_void_join(s, m + 1, i, start(y));
        assert(is_mark(s, stop(items[n - 1]), m, start(y), ','));
        assert(has_mark(s, stop(items[n - 1]), start(y), ','));
        assert(more[0] == items[0]);
    } else {
        lemma_void_join(s, from + 1, i, start(y));
        assert(more[0] == y);
    }
    assert forall|a: int| 0 <= a < more.len() - 1 implies has_mark(
        s,
        stop(#[trigger] more[a]),
        start(more[a + 1]),
        ',',
    ) by {
        assert(more[a] == items[a]);
        if a + 1 < n {
            assert(more[a + 1] == items[a + 1]);
            assert(has_mark(s, stop(items[a]), start(items[a + 1]), ','));
        } else {
            assert(more[a + 1] == y);
        }
    }
    assert forall|a: int| 0 <= a < more.len() implies is_written(s, #[trigger] more[a]) by {
        if a < n {
            assert(more[a] == items[a]);
        }
    }
}

/// Items with nothing but white space and the bracket behind them are an array.
proof fn lemma_list(s: Name, x: Shape)
    requires
        x is List,
        x->List_items.len() > 0,
        is_framed(s, start(x), stop(x), '[', ']'),
        is_void(s, start(x) + 1, start(x->List_items[0])),
        is_void(s, stop(x->List_items[x->List_items.len() - 1]), stop(x) - 1),
        forall|k: int|
            0 <= k < x->List_items.len() - 1 ==> has_mark(
                s,
                stop(#[trigger] x->List_items[k]),
                start(x->List_items[k + 1]),
                ',',
            ),
        forall|k: int|
            0 <= k < x->List_items.len() ==> is_written(s, #[trigger] x->List_items[k]),
    ensures
        is_written(s, x),
{
}

proof fn lemma_items_back(
    s: Name,
    from: int,
    i: int,
    items: Seq<Shape>,
    vs: Seq<ValueV>,
    v: ValueV,
    j: int,
) -> (x: Shape)
    requires
        are_items(s, from, i, items),
        vs == values_of(s, items),
        read_items(s, i, vs) == Ok::<(ValueV, int), Name>((v, j)),
    ensures
        is_account(s, from, j, v, x),
        start(x) == from,
    decreases s.len() - i, 3nat,
{
    let (u, e) = read_value(s, i)->Ok_0;
    let y = lemma_value_back(s, i, u, e);
    let more = items.push(y);
    let n = items.len() as int;
    lemma_stop(s, y);
    lemma_skipped(s, e);
    let k = skip_space(s, e);
    assert(values_of(s, more) =~= vs.push(u));
    lemma_next_item(s, from, i, items, y);
    assert(more[more.len() - 1] == y);
    if k < s.len() && s[k] == ',' {
        assert(is_mark(s, stop(y), k, k + 1, ','));
        lemma_items_back(s, from, k + 1, more, vs.push(u), v, j)
    } else {
        let x = Shape::List { from, to: k + 1, items: more };
        lemma_list(s, x);
        assert(value_of(s, x)->Arr_0 =~= vs.push(u));
        x
    }
}

/// What is written ends in the text.
proof fn lemma_stop(s: Name, x: Shape)
    requires
        is_written(s, x),
    ensures
        0 <= start(x) < stop(x) <= s.len(),
{
}

proof fn lemma_object_back(s: Name, i: int, ms: Seq<MemberV>, j: int) -> (x: Shape)
    requires
        0 <= i < s.len(),
        s[i] == '{',
        read_object(s, i) == Ok::<(Seq<MemberV>, int), Name>((ms, j)),
    ensures
        is_account(s, i, j, ValueV::Obj(ms), x),
        x is Table,
        start(x) == i,
    decreases s.len() - i, 1nat,
{
    assert(skip_space(s, i) == i);
    lemma_skipped(s, i + 1);
    let k = skip_space(s, i + 1);
    if k < s.len() && s[k] == '}' {
        let x = Shape::Table { from: i, to: k + 1, keys: Seq::empty(), items: Seq::empty() };
        assert(raw_members(s, Seq::empty(), Seq::empty()).len() == 0);
        x
    } else {
        assert(raw_members(s, Seq::empty(), Seq::empty()).len() == 0);
        assert(merged(raw_members(s, Seq::empty(), Seq::empty())) == Seq::<MemberV>::empty());
        lemma_members_back(s, i, k, Seq::empty(), Seq::empty(), Seq::empty(), ms, j)
    }
}

/// The members so far.
spec fn are_members(s: Name, from: int, i: int, keys: Seq<KeyShape>, items: Seq<Shape>) -> bool {
    &&& 0 <= from < i <= s.len()
    &&& s[from] == '{'
    &&& keys.len() == items.len()
    &&& items.len() == 0 ==> is_void(s, from + 1, i)
    &&& items.len() > 0 ==> is_void(s, from + 1, keys[0].from) && exists|m: int|
        m < i && #[trigger] is_mark(s, stop(items[items.len() - 1]), m, i, ',')
    &&& forall|k: int|
        0 <= k < items.len() - 1 ==> has_mark(s, stop(#[trigger] items[k]), keys[k + 1].from, ',')
    &&& forall|k: int| 0 <= k < items.len() ==> is_member(s, keys[k], #[trigger] items[k])
}

/// A key, a colon and a value.
spec fn is_member(s: Name, key: KeyShape, x: Shape) -> bool {
    is_key(s, key) && has_mark(s, key.to, start(x), ':') && is_written(s, x)
}

/// One more member.
proof fn lemma_one_more(
    s: Name,
    from: int,
    i: int,
    keys: Seq<KeyShape>,
    items: Seq<Shape>,
    key: KeyShape,
    y: Shape,
)
    requires
        are_members(s, from, i, keys, items),
        is_void(s, i, key.from),
        is_member(s, key, y),
    ensures
        ({
            let keys2 = keys.push(key);
            let items2 = items.push(y);
            &&& is_void(s, from + 1, keys2[0].from)
            &&& forall|k: int|
                0 <= k < items2.len() - 1 ==> has_mark(
                    s,
                    stop(#[trigger] items2[k]),
                    keys2[k + 1].from,
                    ',',
                )
            &&& forall|k: int|
                0 <= k < items2.len() ==> is_member(s, keys2[k], #[trigger] items2[k])
        }),
{
    let at = key.from;
    let keys2 = keys.push(key);
    let items2 = items.push(y);
    let n = items.len() as int;
    if n > 0 {
        let m = choose|m: int| m < i && #[trigger] is_mark(s, stop(items[n - 1]), m, i, ',');
        lemma_void_join(s, m + 1, i, at);
        assert(is_mark(s, stop(items[n - 1]), m, at, ','));
        assert(has_mark(s, stop(items[n - 1]), at, ','));
        assert(keys2[0] == keys[0]);
    } else {
        lemma_void_join(s, from + 1, i, at);
        assert(keys2[0] == key);
    }
    assert forall|b: int| 0 <= b < items2.len() - 1 implies has_mark(
        s,
        stop(#[trigger] items2[b]),
        keys2[b + 1].from,
        ',',
    ) by {
        assert(items2[b] == items[b]);
        if b + 1 < n {
            assert(keys2[b + 1] == keys[b + 1]);
            assert(has_mark(s, stop(items[b]), keys[b + 1].from, ','));
        } else {
            assert(keys2[b + 1] == key);
        }
    }
    assert forall|b: int| 0 <= b < items2.len() implies is_member(
        s,
        keys2[b],
        #[trigger] items2[b],
    ) by {
        if b < n {
            assert(items2[b] == items[b]);
            assert(keys2[b] == keys[b]);
            assert(is_member(s, keys[b], items[b]));
        }
    }
}

/// Members with nothing but white space and the bracket behind them are an object.
proof fn lemma_table(s: Name, x: Shape)
    requires
        x is Table,
        x->keys.len() == x->Table_items.len(),
        x->Table_items.len() > 0,
        is_framed(s, start(x), stop(x), '{', '}'),
        is_void(s, start(x) + 1, x->keys[0].from),
        is_void(s, stop(x->Table_items[x->Table_items.len() - 1]), stop(x) - 1),
        forall|k: int|
            0 <= k < x->Table_items.len() - 1 ==> has_mark(
                s,
                stop(#[trigger] x->Table_items[k]),
                x->keys[k + 1].from,
                ',',
            ),
        forall|k: int|
            0 <= k < x->Table_items.len() ==> is_member(
                s,
                x->keys[k],
                #[trigger] x->Table_items[k],
            ),
    ensures
        is_written(s, x),
{
    match x {
        Shape::Table { from, to, keys, items } => {
            assert forall|k: int| 0 <= k < keys.len() implies is_key(s, #[trigger] keys[k]) by {
                assert(is_member(s, keys[k], items[k]));
            }
            assert forall|k: int| 0 <= k < items.len() implies has_mark(
                s,
                keys[k].to,
                start(#[trigger] items[k]),
                ':',
            ) by {
                assert(is_member(s, keys[k], items[k]));
            }
            assert forall|k: int| 0 <= k < items.len() implies is_written(
                s,
                #[trigger] items[k],
            ) by {
                assert(is_member(s, keys[k], items[k]));
            }
        },
        _ => {},
    }
}

proof fn lemma_members_back(
    s: Name,
    from: int,
    i: int,
    keys: Seq<KeyShape>,
    items: Seq<Shape>,
    before: Seq<MemberV>,
    ms: Seq<MemberV>,
    j: int,
) -> (x: Shape)
    requires
        are_members(s, from, i, keys, items),
        before == merged(raw_members(s, keys, items)),
        read_members(s, i, before) == Ok::<(Seq<MemberV>, int), Name>((ms, j)),
    ensures
        is_account(s, from, j, ValueV::Obj(ms), x),
        x is Table,
        start(x) == from,
    decreases s.len() - i, 3nat,
{
    let (name, a) = read_string(s, i)->Ok_0;
    let q = lemma_string_back(s, i, name, a);
    let at = skip_space(s, i);
    let key = KeyShape { from: at, to: a, pieces: q };
    lemma_skipped(s, a);
    let colon = skip_space(s, a);
    let (u, e) = read_value(s, colon + 1)->Ok_0;
    let y = lemma_value_back(s, colon + 1, u, e);
    lemma_stop(s, y);
    lemma_skipped(s, e);
    let k = skip_space(s, e);
    assert(is_mark(s, a, colon, start(y), ':'));
    assert(is_member(s, key, y));
    let keys2 = keys.push(key);
    let items2 = items.push(y);
    let n = items.len() as int;
    let raw = raw_members(s, keys, items);
    let raw2 = raw_members(s, keys2, items2);
    assert(raw2.drop_last() =~= raw);
    assert(raw2.last() == MemberV { key: name, value: u });
    let after = with_field(before, name, u);
    assert(after == merged(raw2));
    lemma_one_more(s, from, i, keys, items, key, y);
    assert(items2[items2.len() - 1] == y);
    if k < s.len() && s[k] == ',' {
        assert(is_mark(s, stop(y), k, k + 1, ','));
        lemma_members_back(s, from, k + 1, keys2, items2, after, ms, j)
    } else {
        let x = Shape::Table { from, to: k + 1, keys: keys2, items: items2 };
        lemma_table(s, x);
        x
    }
}

/// What is read is written: a document that is read is an object written in full
/// according to the grammar, with nothing but white space around it, and the
/// members are those that it holds. Everything else is refused.
pub proof fn what_is_read_is_written(s: Name, members: Seq<MemberV>)
    requires
        read_document(s) == Ok::<Seq<MemberV>, Name>(members),
    ensures
        exists|x: Shape|
            {
                &&& #[trigger] is_written(s, x)
                &&& x is Table
                &&& is_void(s, 0, start(x))
                &&& is_void(s, stop(x), s.len() as int)
                &&& value_of(s, x) == ValueV::Obj(members)
            },
{
    lemma_skipped(s, 0);
    let i = skip_space(s, 0);
    lemma_skipped(s, i);
    let (ms, j) = read_object(s, i)->Ok_0;
    assert(i < s.len() && s[i] == '{') by {
        assert(read_char(s, i, '{') is Ok);
    }
    let x = lemma_object_back(s, i, ms, j);
    lemma_stop(s, x);
    lemma_skipped(s, j);
    assert(is_written(s, x));
}

}
