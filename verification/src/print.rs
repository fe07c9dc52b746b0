//! Writing JSON.
//!
//! The outermost object and the lists directly in it take one line per entry;
//! everything further inside stays on one line. Reading back what was written
//! gives the same value.

use vstd::prelude::*;

use crate::json::{
    digits_end, digits_value, find_key, is_digit, is_space, member_views, read_array, read_char,
    read_document, read_items, read_members, read_object, read_string, read_text, read_value,
    skip_space, value_view, value_views, with_field, Member, MemberV, Value, ValueV,
};
use crate::lint::paths::stands_at;
use crate::text::{chars_of, dec, digit, push_dec, Name};

verus! {

/// A character inside a string.
pub open spec fn escaped_char(c: char) -> Name {
    if c == '"' {
        seq!['\\', '"']
    } else if c == '\\' {
        seq!['\\', '\\']
    } else if c == '\n' {
        seq!['\\', 'n']
    } else {
        seq![c]
    }
}

/// The characters inside a string.
pub open spec fn escaped(s: Name) -> Name
    decreases s.len(),
{
    if s.len() == 0 {
        Seq::empty()
    } else {
        escaped_char(s[0]) + escaped(s.drop_first())
    }
}

/// A string in quotes.
pub open spec fn string_text(s: Name) -> Name {
    seq!['"'] + escaped(s) + seq!['"']
}

/// The white space in an array or object: before the first entry, before each
/// other entry, and behind the last.
pub struct Layout {
    pub open: Name,
    pub next: Name,
    pub close: Name,
}

/// The layout of an object `level` objects or arrays deep.
pub open spec fn object_layout(level: nat) -> Layout {
    if level == 0 {
        Layout { open: "\n  "@, next: "\n  "@, close: "\n"@ }
    } else if level == 1 {
        Layout { open: "\n    "@, next: "\n    "@, close: "\n  "@ }
    } else {
        Layout { open: " "@, next: " "@, close: " "@ }
    }
}

/// The layout of an array `level` objects or arrays deep.
pub open spec fn array_layout(level: nat) -> Layout {
    if level == 1 {
        Layout { open: "\n    "@, next: "\n    "@, close: "\n  "@ }
    } else {
        Layout { open: Seq::empty(), next: " "@, close: Seq::empty() }
    }
}

/// A value that is written `level` objects or arrays deep.
pub open spec fn value_text(v: ValueV, level: nat) -> Name
    decreases v,
{
    match v {
        ValueV::Str(s) => string_text(s),
        ValueV::Num(n) => dec(n),
        ValueV::Arr(items) => seq!['['] + items_text(items, items.len() as int, level)
            + array_layout(level).close + seq![']'],
        ValueV::Obj(members) => seq!['{'] + members_text(members, members.len() as int, level)
            + object_layout(level).close + seq!['}'],
    }
}

/// What stands before an entry of an array.
pub open spec fn array_gap(first: bool, level: nat) -> Name {
    if first {
        array_layout(level).open
    } else {
        seq![','] + array_layout(level).next
    }
}

/// The first `n` entries of an array.
pub open spec fn items_text(items: Seq<ValueV>, n: int, level: nat) -> Name
    decreases items, n,
{
    if 0 < n <= items.len() {
        items_text(items, n - 1, level) + (array_gap(n == 1, level) + value_text(
            items[n - 1],
            level + 1,
        ))
    } else {
        Seq::empty()
    }
}

/// The first `n` members of an object.
pub open spec fn members_text(members: Seq<MemberV>, n: int, level: nat) -> Name
    decreases members, n,
{
    if 0 < n <= members.len() {
        members_text(members, n - 1, level) + (object_gap(n == 1, level) + string_text(
            members[n - 1].key,
        ) + ": "@ + value_text(members[n - 1].value, level + 1))
    } else {
        Seq::empty()
    }
}

/// A document.
pub open spec fn document_text(members: Seq<MemberV>) -> Name {
    value_text(ValueV::Obj(members), 0) + "\n"@
}

proof fn lemma_escaped_push(s: Name, c: char)
    ensures
        escaped(s.push(c)) == escaped(s) + escaped_char(c),
    decreases s.len(),
{
    let t = s.push(c);
    if s.len() == 0 {
        assert(t.drop_first() =~= Seq::empty());
        assert(t[0] == c);
        assert(escaped(t) == escaped_char(c) + escaped(t.drop_first()));
        assert(escaped(t.drop_first()) =~= Seq::empty());
        assert(escaped(s) =~= Seq::empty());
        assert(escaped(t) =~= escaped(s) + escaped_char(c));
    } else {
        assert(t.drop_first() =~= s.drop_first().push(c));
        lemma_escaped_push(s.drop_first(), c);
        assert(escaped(t) =~= escaped(s) + escaped_char(c));
    }
}

/// Appends a string in quotes.
fn push_string(out: &mut String, s: &str)
    ensures
        final(out)@ == old(out)@ + string_text(s@),
{
    let ghost start = out@;
    let chars = chars_of(s);
    out.push('"');
    let mut i: usize = 0;
    assert(out@ =~= start + seq!['"'] + escaped(s@.take(0)));
    while i < chars.len()
        invariant
            chars@ == s@,
            i <= chars@.len(),
            out@ == start + seq!['"'] + escaped(s@.take(i as int)),
        decreases chars@.len() - i,
    {
        let c: char = chars[i];
        let ghost before = out@;
        if c == '"' {
            out.push('\\');
            out.push('"');
        } else if c == '\\' {
            out.push('\\');
            out.push('\\');
        } else if c == '\n' {
            out.push('\\');
            out.push('n');
        } else {
            out.push(c);
        }
        proof {
            assert(out@ =~= before + escaped_char(c));
            assert(s@.take(i + 1) =~= s@.take(i as int).push(c));
            lemma_escaped_push(s@.take(i as int), c);
            assert(out@ =~= start + seq!['"'] + escaped(s@.take(i + 1)));
        }
        i = i + 1;
    }
    assert(s@.take(i as int) =~= s@);
    out.push('"');
    assert(out@ =~= start + string_text(s@));
}

/// Appends a value.
fn push_value(out: &mut String, v: &Value, level: u8)
    requires
        level <= 3,
    ensures
        final(out)@ == old(out)@ + value_text(value_view(*v), level as nat),
    decreases value_view(*v), 1nat,
{
    let ghost start = out@;
    match v {
        Value::Str(s) => push_string(out, s.as_str()),
        Value::Num(n) => push_dec(out, *n),
        Value::Arr(items) => {
            let ghost x = value_view(*v);
            assert(x == ValueV::Arr(value_views(items@)));
            assert(decreases_to!(x => x->Arr_0));
            push_items(out, items, level);
        },
        Value::Obj(members) => {
            let ghost x = value_view(*v);
            assert(x == ValueV::Obj(member_views(members@)));
            assert(decreases_to!(x => x->Obj_0));
            push_members(out, members, level);
        },
    }
}

/// What stands before an entry of an object.
pub open spec fn object_gap(first: bool, level: nat) -> Name {
    if first {
        object_layout(level).open
    } else {
        seq![','] + object_layout(level).next
    }
}

/// Appends what stands before an entry of an object.
fn push_object_gap(out: &mut String, first: bool, level: u8)
    ensures
        final(out)@ == old(out)@ + object_gap(first, level as nat),
{
    let ghost start = out@;
    if !first {
        out.push(',');
    }
    if level == 0 {
        out.append("\n  ");
    } else if level == 1 {
        out.append("\n    ");
    } else {
        out.append(" ");
    }
    assert(out@ =~= start + object_gap(first, level as nat));
}

/// Appends an array.
fn push_items(out: &mut String, items: &Vec<Value>, level: u8)
    requires
        level <= 3,
    ensures
        final(out)@ == old(out)@ + value_text(ValueV::Arr(value_views(items@)), level as nat),
    decreases value_views(items@), 0nat,
{
    let ghost start = out@;
    let ghost q = value_views(items@);
    let ghost lv = level as nat;
    let next: u8 = if level < 3 {
        level + 1
    } else {
        3
    };
    out.push('[');
    let mut i: usize = 0;
    assert(out@ =~= start + seq!['['] + items_text(q, 0, lv));
    while i < items.len()
        invariant
            level <= 3,
            lv == level,
            next == if level < 3 {
                level + 1
            } else {
                3
            },
            q == value_views(items@),
            i <= items@.len(),
            out@ == start + seq!['['] + items_text(q, i as int, lv),
        decreases items@.len() - i,
    {
        let ghost before = out@;
        if i > 0 {
            out.push(',');
            if level == 1 {
                out.append("\n    ");
            } else {
                out.append(" ");
            }
        } else if level == 1 {
            out.append("\n    ");
        }
        assert(q[i as int] == value_view(items@[i as int]));
        assert(decreases_to!(q => q[i as int]));
        push_value(out, &items[i], next);
        proof {
            lemma_deep(q[i as int], next as nat, lv + 1);
            let piece = array_gap(i == 0, lv) + value_text(q[i as int], lv + 1);
            assert(out@ =~= before + piece);
            assert(items_text(q, i + 1, lv) == items_text(q, i as int, lv) + piece);
            assert(out@ =~= start + seq!['['] + items_text(q, i + 1, lv));
        }
        i = i + 1;
    }
    if level == 1 {
        out.append("\n  ");
    }
    out.push(']');
    assert(out@ =~= start + value_text(ValueV::Arr(q), lv));
}

/// Appends an object.
fn push_members(out: &mut String, members: &Vec<Member>, level: u8)
    requires
        level <= 3,
    ensures
        final(out)@ == old(out)@ + value_text(ValueV::Obj(member_views(members@)), level as nat),
    decreases member_views(members@), 0nat,
{
    let ghost start = out@;
    let ghost q = member_views(members@);
    let ghost lv = level as nat;
    let next: u8 = if level < 3 {
        level + 1
    } else {
        3
    };
    out.push('{');
    let mut i: usize = 0;
    assert(out@ =~= start + seq!['{'] + members_text(q, 0, lv));
    while i < members.len()
        invariant
            level <= 3,
            lv == level,
            next == if level < 3 {
                level + 1
            } else {
                3
            },
            q == member_views(members@),
            i <= members@.len(),
            out@ == start + seq!['{'] + members_text(q, i as int, lv),
        decreases members@.len() - i,
    {
        let ghost before = out@;
        push_object_gap(out, i == 0, level);
        let m = &members[i];
        assert(q[i as int] == (MemberV { key: m.key@, value: value_view(m.value) }));
        push_string(out, m.key.as_str());
        out.append(": ");
        assert(decreases_to!(q => q[i as int]));
        push_value(out, &m.value, next);
        proof {
            lemma_deep(q[i as int].value, next as nat, lv + 1);
            let piece = object_gap(i == 0, lv) + string_text(q[i as int].key) + ": "@ + value_text(
                q[i as int].value,
                lv + 1,
            );
            assert(out@ =~= before + piece);
            assert(members_text(q, i + 1, lv) == members_text(q, i as int, lv) + piece);
            assert(out@ =~= start + seq!['{'] + members_text(q, i + 1, lv));
        }
        i = i + 1;
    }
    if level == 0 {
        out.append("\n");
    } else if level == 1 {
        out.append("\n  ");
    } else {
        out.append(" ");
    }
    out.push('}');
    assert(out@ =~= start + value_text(ValueV::Obj(q), lv));
}

/// From the third level on, the level makes no difference.
proof fn lemma_deep(v: ValueV, a: nat, b: nat)
    requires
        a == b || (a >= 2 && b >= 2),
    ensures
        value_text(v, a) == value_text(v, b),
    decreases v, 0nat,
{
    match v {
        ValueV::Arr(items) => lemma_deep_items(items, items.len() as int, a, b),
        ValueV::Obj(members) => lemma_deep_members(members, members.len() as int, a, b),
        _ => {},
    }
}

proof fn lemma_deep_items(items: Seq<ValueV>, n: int, a: nat, b: nat)
    requires
        a == b || (a >= 2 && b >= 2),
    ensures
        items_text(items, n, a) == items_text(items, n, b),
    decreases items, n,
{
    if 0 < n <= items.len() {
        lemma_deep_items(items, n - 1, a, b);
        lemma_deep(items[n - 1], a + 1, b + 1);
    }
}

proof fn lemma_deep_members(members: Seq<MemberV>, n: int, a: nat, b: nat)
    requires
        a == b || (a >= 2 && b >= 2),
    ensures
        members_text(members, n, a) == members_text(members, n, b),
    decreases members, n,
{
    if 0 < n <= members.len() {
        lemma_deep_members(members, n - 1, a, b);
        lemma_deep(members[n - 1].value, a + 1, b + 1);
    }
}

/// Writes a document.
pub fn print_document(members: &Vec<Member>) -> (r: String)
    ensures
        r@ == document_text(member_views(members@)),
{
    let mut out = String::new();
    push_members(&mut out, members, 0);
    assert(out@ =~= value_text(ValueV::Obj(member_views(members@)), 0));
    out.append("\n");
    out
}

/// A value that can be written and read back: its numbers fit a machine word,
/// and no object repeats a key.
pub open spec fn proper(v: ValueV) -> bool
    decreases v, 0nat,
{
    match v {
        ValueV::Str(s) => true,
        ValueV::Num(n) => n <= usize::MAX,
        ValueV::Arr(items) => proper_items(items, items.len() as int),
        ValueV::Obj(members) => distinct_keys(members) && proper_members(
            members,
            members.len() as int,
        ),
    }
}

/// The first `n` values are proper.
pub open spec fn proper_items(items: Seq<ValueV>, n: int) -> bool
    decreases items, n,
{
    if 0 < n <= items.len() {
        proper_items(items, n - 1) && proper(items[n - 1])
    } else {
        true
    }
}

/// The values of the first `n` members are proper.
pub open spec fn proper_members(members: Seq<MemberV>, n: int) -> bool
    decreases members, n,
{
    if 0 < n <= members.len() {
        proper_members(members, n - 1) && proper(members[n - 1].value)
    } else {
        true
    }
}

/// No key occurs twice.
pub open spec fn distinct_keys(members: Seq<MemberV>) -> bool {
    forall|i: int, j: int|
        0 <= i < j < members.len() ==> (#[trigger] members[i]).key != (#[trigger] members[j]).key
}

/// Only white space.
spec fn all_space(w: Name) -> bool {
    forall|k: int| 0 <= k < w.len() ==> is_space(#[trigger] w[k])
}

proof fn lemma_split(s: Name, a: Name, b: Name, i: int)
    requires
        stands_at(s, a + b, i),
    ensures
        stands_at(s, a, i),
        stands_at(s, b, i + a.len()),
{
    let n = i + (a + b).len();
    assert(s.subrange(i, i + a.len()) =~= s.subrange(i, n).subrange(0, a.len() as int));
    assert((a + b).subrange(0, a.len() as int) =~= a);
    assert(s.subrange(i + a.len(), i + a.len() + b.len()) =~= s.subrange(i, n).subrange(
        a.len() as int,
        (a + b).len() as int,
    ));
    assert((a + b).subrange(a.len() as int, (a + b).len() as int) =~= b);
}

proof fn lemma_char(s: Name, w: Name, i: int, k: int)
    requires
        stands_at(s, w, i),
        0 <= k < w.len(),
    ensures
        0 <= i,
        i + k < s.len(),
        s[i + k] == w[k],
{
    assert(s.subrange(i, i + w.len())[k] == s[i + k]);
}

proof fn lemma_skip(s: Name, w: Name, i: int)
    requires
        stands_at(s, w, i),
        all_space(w),
        i + w.len() == s.len() || (i + w.len() < s.len() && !is_space(s[i + w.len()])),
    ensures
        skip_space(s, i) == i + w.len(),
    decreases w.len(),
{
    if w.len() > 0 {
        lemma_char(s, w, i, 0);
        let r = w.drop_first();
        assert(w =~= seq![w[0]] + r);
        lemma_split(s, seq![w[0]], r, i);
        assert forall|k: int| 0 <= k < r.len() implies is_space(#[trigger] r[k]) by {
            assert(r[k] == w[k + 1]);
        }
        lemma_skip(s, r, i + 1);
    }
}

proof fn lemma_text(s: Name, j: int, out: Name, rest: Name)
    requires
        stands_at(s, escaped(rest) + seq!['"'], j),
    ensures
        read_text(s, j, out) == Ok::<(Name, int), Name>(
            (out + rest, j + escaped(rest).len() + 1),
        ),
    decreases rest.len(),
{
    reveal(read_text);
    let w = escaped(rest) + seq!['"'];
    lemma_char(s, w, j, 0);
    if rest.len() == 0 {
        assert(out + rest =~= out);
    } else {
        let c = rest[0];
        let e = escaped_char(c);
        let r = rest.drop_first();
        assert(w =~= e + (escaped(r) + seq!['"']));
        lemma_split(s, e, escaped(r) + seq!['"'], j);
        lemma_char(s, e, j, 0);
        if e.len() == 2 {
            lemma_char(s, e, j, 1);
        }
        lemma_text(s, j + e.len(), out.push(c), r);
        assert(out.push(c) + r =~= out + rest);
    }
}

proof fn lemma_string(s: Name, i: int, x: Name)
    requires
        stands_at(s, string_text(x), i),
    ensures
        skip_space(s, i) == i,
        s[i] == '"',
        read_string(s, i) == Ok::<(Name, int), Name>((x, i + string_text(x).len())),
{
    let w = string_text(x);
    lemma_char(s, w, i, 0);
    assert(w =~= seq!['"'] + (escaped(x) + seq!['"']));
    lemma_split(s, seq!['"'], escaped(x) + seq!['"'], i);
    lemma_text(s, i + 1, Seq::empty(), x);
    assert(Seq::<char>::empty() + x =~= x);
}

proof fn lemma_dec(n: nat)
    ensures
        dec(n).len() > 0,
        forall|k: int| 0 <= k < dec(n).len() ==> is_digit(#[trigger] dec(n)[k]),
        digits_value(dec(n)) == n,
    decreases n,
{
    if n < 10 {
        let w = dec(n);
        assert(w.drop_last() =~= Seq::empty());
        assert(w.last() == digit(n));
        assert(digits_value(w) == digits_value(w.drop_last()) * 10 + (w.last() as nat
            - '0' as nat) as nat);
    } else {
        lemma_dec(n / 10);
        let w = dec(n);
        assert(w.drop_last() =~= dec(n / 10));
        assert(w.last() == digit(n % 10));
        assert(digits_value(w) == digits_value(w.drop_last()) * 10 + (w.last() as nat
            - '0' as nat) as nat);
        assert forall|k: int| 0 <= k < w.len() implies is_digit(#[trigger] w[k]) by {
            if k < w.len() - 1 {
                assert(w[k] == dec(n / 10)[k]);
            }
        }
    }
}

proof fn lemma_digits_end(s: Name, w: Name, i: int)
    requires
        stands_at(s, w, i),
        forall|k: int| 0 <= k < w.len() ==> is_digit(#[trigger] w[k]),
        i + w.len() == s.len() || (i + w.len() < s.len() && !is_digit(s[i + w.len()])),
    ensures
        digits_end(s, i) == i + w.len(),
    decreases w.len(),
{
    if w.len() > 0 {
        lemma_char(s, w, i, 0);
        let r = w.drop_first();
        assert(w =~= seq![w[0]] + r);
        lemma_split(s, seq![w[0]], r, i);
        assert forall|k: int| 0 <= k < r.len() implies is_digit(#[trigger] r[k]) by {
            assert(r[k] == w[k + 1]);
        }
        lemma_digits_end(s, r, i + 1);
    }
}

proof fn lemma_layouts(level: nat)
    ensures
        all_space(array_layout(level).open),
        all_space(array_layout(level).next),
        all_space(array_layout(level).close),
        all_space(object_layout(level).open),
        all_space(object_layout(level).next),
        all_space(object_layout(level).close),
{
    reveal_strlit("\n  ");
    reveal_strlit("\n    ");
    reveal_strlit("\n");
    reveal_strlit(" ");
}

/// How the text of a value starts.
proof fn lemma_first(v: ValueV, level: nat)
    ensures
        value_text(v, level).len() > 0,
        match v {
            ValueV::Str(s) => value_text(v, level)[0] == '"',
            ValueV::Num(n) => is_digit(value_text(v, level)[0]),
            ValueV::Arr(items) => value_text(v, level)[0] == '[',
            ValueV::Obj(members) => value_text(v, level)[0] == '{',
        },
        !is_space(value_text(v, level)[0]),
{
    match v {
        ValueV::Num(n) => {
            lemma_dec(n);
            assert(is_digit(dec(n)[0]));
        },
        _ => {},
    }
}

/// White space before a value makes no difference.
proof fn lemma_leading_space(s: Name, i: int, j: int)
    requires
        0 <= i <= j,
        skip_space(s, i) == j,
        skip_space(s, j) == j,
    ensures
        read_value(s, i) == read_value(s, j),
        read_string(s, i) == read_string(s, j),
        forall|c: char| read_char(s, i, c) == read_char(s, j, c),
{
}

/// The text of the whole array or object ends behind the first `n` entries with
/// what follows them.
proof fn lemma_items_prefix(items: Seq<ValueV>, n: int, level: nat) -> (rest: Name)
    requires
        0 <= n <= items.len(),
    ensures
        items_text(items, items.len() as int, level) == items_text(items, n, level) + rest,
        n < items.len() ==> rest.len() >= (array_gap(n == 0, level) + value_text(
            items[n],
            level + 1,
        )).len() && rest.take(
            (array_gap(n == 0, level) + value_text(items[n], level + 1)).len() as int,
        ) == array_gap(n == 0, level) + value_text(items[n], level + 1),
        n + 1 < items.len() ==> rest.len() > (array_gap(n == 0, level) + value_text(
            items[n],
            level + 1,
        )).len() && rest[(array_gap(n == 0, level) + value_text(items[n], level + 1)).len() as int]
            == ',',
        n + 1 == items.len() ==> rest == array_gap(n == 0, level) + value_text(
            items[n],
            level + 1,
        ),
        n == items.len() ==> rest.len() == 0,
    decreases items.len() - n,
{
    if n == items.len() {
        assert(items_text(items, n, level) + Seq::<char>::empty() =~= items_text(items, n, level));
        Seq::empty()
    } else {
        let tail = lemma_items_prefix(items, n + 1, level);
        let piece = array_gap(n == 0, level) + value_text(items[n], level + 1);
        assert(items_text(items, n + 1, level) == items_text(items, n, level) + piece);
        let rest = piece + tail;
        assert(items_text(items, n, level) + piece + tail =~= items_text(items, n, level) + rest);
        assert(rest.take(piece.len() as int) =~= piece);
        if n + 1 < items.len() {
            let next = array_gap(false, level) + value_text(items[n + 1], level + 1);
            assert(tail.take(next.len() as int)[0] == tail[0]);
            assert(next[0] == ',');
            assert(rest[piece.len() as int] == tail[0]);
        } else {
            assert(tail =~= Seq::empty());
            assert(rest =~= piece);
        }
        rest
    }
}

/// Reading back the value at `i`, which is followed by something that is no
/// digit.
proof fn lemma_value(s: Name, i: int, v: ValueV, level: nat)
    requires
        stands_at(s, value_text(v, level), i),
        proper(v),
        i + value_text(v, level).len() < s.len(),
        !is_digit(s[i + value_text(v, level).len()]),
    ensures
        skip_space(s, i) == i,
        read_value(s, i) == Ok::<(ValueV, int), Name>((v, i + value_text(v, level).len())),
    decreases v, 0nat,
{
    let w = value_text(v, level);
    lemma_first(v, level);
    lemma_char(s, w, i, 0);
    match v {
        ValueV::Str(x) => {
            lemma_string(s, i, x);
        },
        ValueV::Num(n) => {
            lemma_dec(n);
            lemma_digits_end(s, w, i);
        },
        ValueV::Arr(items) => {
            let l = array_layout(level);
            let all = items_text(items, items.len() as int, level);
            assert(w =~= seq!['['] + (all + l.close + seq![']']));
            lemma_split(s, seq!['['], all + l.close + seq![']'], i);
            lemma_array(s, i + 1, items, level);
        },
        ValueV::Obj(members) => {
            let l = object_layout(level);
            let all = members_text(members, members.len() as int, level);
            assert(w =~= seq!['{'] + (all + l.close + seq!['}']));
            lemma_split(s, seq!['{'], all + l.close + seq!['}'], i);
            lemma_object(s, i + 1, members, level);
        },
    }
}

/// Reading back an array whose bracket is just before `base`.
proof fn lemma_array(s: Name, base: int, items: Seq<ValueV>, level: nat)
    requires
        base >= 1,
        s[base - 1] == '[',
        stands_at(
            s,
            items_text(items, items.len() as int, level) + array_layout(level).close + seq![']'],
            base,
        ),
        proper_items(items, items.len() as int),
    ensures
        read_array(s, base - 1) == Ok::<(ValueV, int), Name>(
            (
                ValueV::Arr(items),
                base + items_text(items, items.len() as int, level).len() + array_layout(
                    level,
                ).close.len() + 1,
            ),
        ),
    decreases items, items.len() + 1,
{
    let l = array_layout(level);
    let all = items_text(items, items.len() as int, level);
    lemma_layouts(level);
    let end = base + all.len() + l.close.len();
    lemma_split(s, all + l.close, seq![']'], base);
    lemma_split(s, all, l.close, base);
    lemma_char(s, seq![']'], end, 0);
    assert(skip_space(s, base - 1) == base - 1);
    if items.len() == 0 {
        assert(all =~= Seq::empty());
        lemma_skip(s, l.close, base);
        assert(items =~= Seq::empty());
    } else {
        let rest = lemma_items_prefix(items, 0, level);
        let gap = array_gap(true, level);
        let text = value_text(items[0], level + 1);
        assert(all =~= rest);
        lemma_piece(s, all, gap + text, base);
        lemma_split(s, gap, text, base);
        lemma_first(items[0], level + 1);
        lemma_char(s, text, base + gap.len(), 0);
        lemma_skip(s, gap, base);
        let k = base + gap.len();
        assert(skip_space(s, k) == k);
        lemma_items(s, base, items, level, 0, k);
        assert(items.take(0) =~= Seq::empty());
    }
}

/// What starts a text stands where the text stands.
proof fn lemma_piece(s: Name, w: Name, a: Name, i: int)
    requires
        stands_at(s, w, i),
        a.len() <= w.len(),
        w.take(a.len() as int) == a,
    ensures
        stands_at(s, a, i),
{
    assert(w =~= a + w.skip(a.len() as int));
    lemma_split(s, a, w.skip(a.len() as int), i);
}

/// Reading back the items from number `k` on; `p` is before item `k`, with only
/// white space between.
proof fn lemma_items(s: Name, base: int, items: Seq<ValueV>, level: nat, k: int, p: int)
    requires
        base >= 0,
        stands_at(
            s,
            items_text(items, items.len() as int, level) + array_layout(level).close + seq![']'],
            base,
        ),
        proper_items(items, items.len() as int),
        0 <= k < items.len(),
        0 <= p,
        p <= base + items_text(items, k, level).len() + array_gap(k == 0, level).len(),
        skip_space(s, p) == base + items_text(items, k, level).len() + array_gap(
            k == 0,
            level,
        ).len(),
    ensures
        read_items(s, p, items.take(k)) == Ok::<(ValueV, int), Name>(
            (
                ValueV::Arr(items),
                base + items_text(items, items.len() as int, level).len() + array_layout(
                    level,
                ).close.len() + 1,
            ),
        ),
    decreases items, items.len() - k,
{
    let l = array_layout(level);
    let all = items_text(items, items.len() as int, level);
    lemma_layouts(level);
    let end = base + all.len() + l.close.len();
    lemma_split(s, all + l.close, seq![']'], base);
    lemma_split(s, all, l.close, base);
    lemma_char(s, seq![']'], end, 0);
    let before = items_text(items, k, level);
    let rest = lemma_items_prefix(items, k, level);
    let gap = array_gap(k == 0, level);
    let text = value_text(items[k], level + 1);
    lemma_split(s, before, rest, base);
    let q = base + before.len();
    lemma_piece(s, rest, gap + text, q);
    lemma_split(s, gap, text, q);
    let start = q + gap.len();
    let stop = start + text.len();
    lemma_proper_item(items, items.len() as int, k);
    assert(stop < s.len() && !is_digit(s[stop])) by {
        if k + 1 < items.len() {
            lemma_char(s, rest, q, (gap + text).len() as int);
        } else if l.close.len() > 0 {
            lemma_char(s, l.close, stop, 0);
        }
    }
    lemma_value(s, start, items[k], level + 1);
    lemma_leading_space(s, p, start);
    assert(items.take(k + 1) =~= items.take(k).push(items[k]));
    if k + 1 < items.len() {
        lemma_char(s, rest, q, (gap + text).len() as int);
        assert(s[stop] == ',');
        assert(skip_space(s, stop) == stop);
        let rest2 = lemma_items_prefix(items, k + 1, level);
        let before2 = items_text(items, k + 1, level);
        assert(before2 == before + (gap + text));
        lemma_split(s, before2, rest2, base);
        let gap2 = array_gap(false, level);
        let text2 = value_text(items[k + 1], level + 1);
        lemma_piece(s, rest2, gap2 + text2, stop);
        lemma_split(s, gap2, text2, stop);
        assert(gap2 =~= seq![','] + l.next);
        lemma_split(s, seq![','], l.next, stop);
        lemma_first(items[k + 1], level + 1);
        lemma_char(s, text2, stop + gap2.len(), 0);
        lemma_skip(s, l.next, stop + 1);
        lemma_items(s, base, items, level, k + 1, stop + 1);
    } else {
        assert(stop == base + all.len());
        lemma_skip(s, l.close, stop);
        assert(items.take(k + 1) =~= items);
    }
}

proof fn lemma_proper_item(items: Seq<ValueV>, n: int, k: int)
    requires
        proper_items(items, n),
        0 <= k < n <= items.len(),
    ensures
        proper(items[k]),
    decreases n,
{
    if k < n - 1 {
        lemma_proper_item(items, n - 1, k);
    }
}

proof fn lemma_proper_member(members: Seq<MemberV>, n: int, k: int)
    requires
        proper_members(members, n),
        0 <= k < n <= members.len(),
    ensures
        proper(members[k].value),
    decreases n,
{
    if k < n - 1 {
        lemma_proper_member(members, n - 1, k);
    }
}

/// The text of one member of an object, with what stands before it.
spec fn member_text(members: Seq<MemberV>, k: int, level: nat) -> Name {
    object_gap(k == 0, level) + string_text(members[k].key) + ": "@ + value_text(
        members[k].value,
        level + 1,
    )
}

proof fn lemma_members_prefix(members: Seq<MemberV>, n: int, level: nat) -> (rest: Name)
    requires
        0 <= n <= members.len(),
    ensures
        members_text(members, members.len() as int, level) == members_text(members, n, level)
            + rest,
        n < members.len() ==> rest.len() >= member_text(members, n, level).len() && rest.take(
            member_text(members, n, level).len() as int,
        ) == member_text(members, n, level),
        n + 1 < members.len() ==> rest.len() > member_text(members, n, level).len()
            && rest[member_text(members, n, level).len() as int] == ',',
        n + 1 == members.len() ==> rest == member_text(members, n, level),
        n == members.len() ==> rest.len() == 0,
    decreases members.len() - n,
{
    if n == members.len() {
        assert(members_text(members, n, level) + Seq::<char>::empty() =~= members_text(
            members,
            n,
            level,
        ));
        Seq::empty()
    } else {
        let tail = lemma_members_prefix(members, n + 1, level);
        let piece = member_text(members, n, level);
        assert(members_text(members, n + 1, level) == members_text(members, n, level) + piece);
        let rest = piece + tail;
        assert(members_text(members, n, level) + piece + tail =~= members_text(members, n, level)
            + rest);
        assert(rest.take(piece.len() as int) =~= piece);
        if n + 1 < members.len() {
            let next = member_text(members, n + 1, level);
            assert(next[0] == ',');
            assert(tail.take(next.len() as int)[0] == tail[0]);
            assert(rest[piece.len() as int] == tail[0]);
        } else {
            assert(tail =~= Seq::empty());
            assert(rest =~= piece);
        }
        rest
    }
}

/// A key that is not among the first `k` is added.
proof fn lemma_fresh_key(members: Seq<MemberV>, k: int)
    requires
        distinct_keys(members),
        0 <= k < members.len(),
    ensures
        with_field(members.take(k), members[k].key, members[k].value) == members.take(k + 1),
{
    lemma_no_key(members, k, k);
    assert(members.take(k + 1) =~= members.take(k).push(
        MemberV { key: members[k].key, value: members[k].value },
    ));
}

proof fn lemma_no_key(members: Seq<MemberV>, k: int, n: int)
    requires
        distinct_keys(members),
        0 <= n <= k < members.len(),
    ensures
        find_key(members.take(n), members[k].key) is None,
    decreases n,
{
    if n > 0 {
        lemma_no_key(members, k, n - 1);
        assert(members.take(n).drop_last() =~= members.take(n - 1));
        assert(members.take(n).last() == members[n - 1]);
        assert(members[n - 1].key != members[k].key);
    }
}

/// Reading back an object whose bracket is just before `base`.
proof fn lemma_object(s: Name, base: int, members: Seq<MemberV>, level: nat)
    requires
        base >= 1,
        s[base - 1] == '{',
        stands_at(
            s,
            members_text(members, members.len() as int, level) + object_layout(level).close
                + seq!['}'],
            base,
        ),
        distinct_keys(members),
        proper_members(members, members.len() as int),
    ensures
        read_object(s, base - 1) == Ok::<(Seq<MemberV>, int), Name>(
            (
                members,
                base + members_text(members, members.len() as int, level).len() + object_layout(
                    level,
                ).close.len() + 1,
            ),
        ),
    decreases members, members.len() + 1,
{
    let l = object_layout(level);
    let all = members_text(members, members.len() as int, level);
    lemma_layouts(level);
    let end = base + all.len() + l.close.len();
    lemma_split(s, all + l.close, seq!['}'], base);
    lemma_split(s, all, l.close, base);
    lemma_char(s, seq!['}'], end, 0);
    assert(skip_space(s, base - 1) == base - 1);
    if members.len() == 0 {
        assert(all =~= Seq::empty());
        lemma_skip(s, l.close, base);
        assert(members =~= Seq::empty());
    } else {
        let rest = lemma_members_prefix(members, 0, level);
        let gap = object_gap(true, level);
        let key = string_text(members[0].key);
        let tail = ": "@ + value_text(members[0].value, level + 1);
        assert(all =~= rest);
        lemma_piece(s, all, member_text(members, 0, level), base);
        assert(member_text(members, 0, level) =~= gap + (key + tail));
        lemma_split(s, gap, key + tail, base);
        let k = base + gap.len();
        lemma_split(s, key, tail, k);
        lemma_char(s, key, k, 0);
        lemma_skip(s, gap, base);
        assert(skip_space(s, k) == k);
        lemma_members(s, base, members, level, 0, k);
        assert(members.take(0) =~= Seq::empty());
    }
}

/// Where the member number `k` stands, and what follows it.
proof fn lemma_member_place(s: Name, base: int, members: Seq<MemberV>, level: nat, k: int)
    requires
        base >= 0,
        stands_at(
            s,
            members_text(members, members.len() as int, level) + object_layout(level).close
                + seq!['}'],
            base,
        ),
        0 <= k < members.len(),
    ensures
        ({
            let at_key = base + members_text(members, k, level).len() + object_gap(
                k == 0,
                level,
            ).len();
            let at_colon = at_key + string_text(members[k].key).len();
            let stop = at_colon + 2 + value_text(members[k].value, level + 1).len();
            &&& stands_at(s, string_text(members[k].key), at_key)
            &&& at_colon + 1 < s.len()
            &&& s[at_colon] == ':'
            &&& s[at_colon + 1] == ' '
            &&& stands_at(s, value_text(members[k].value, level + 1), at_colon + 2)
            &&& stop < s.len()
            &&& !is_digit(s[stop])
            &&& stop == base + members_text(members, k + 1, level).len()
            &&& k + 1 < members.len() ==> s[stop] == ','
        }),
{
    let l = object_layout(level);
    let all = members_text(members, members.len() as int, level);
    lemma_layouts(level);
    reveal_strlit(": ");
    let end = base + all.len() + l.close.len();
    lemma_split(s, all + l.close, seq!['}'], base);
    lemma_split(s, all, l.close, base);
    lemma_char(s, seq!['}'], end, 0);
    let before = members_text(members, k, level);
    let rest = lemma_members_prefix(members, k, level);
    let gap = object_gap(k == 0, level);
    let key = string_text(members[k].key);
    let text = value_text(members[k].value, level + 1);
    let piece = member_text(members, k, level);
    assert(piece =~= gap + (key + (": "@ + text)));
    lemma_split(s, before, rest, base);
    let q = base + before.len();
    lemma_piece(s, rest, piece, q);
    lemma_split(s, gap, key + (": "@ + text), q);
    let at_key = q + gap.len();
    lemma_split(s, key, ": "@ + text, at_key);
    let at_colon = at_key + key.len();
    lemma_split(s, ": "@, text, at_colon);
    lemma_char(s, ": "@, at_colon, 0);
    lemma_char(s, ": "@, at_colon, 1);
    let stop = at_colon + 2 + text.len();
    assert(members_text(members, k + 1, level) == before + piece);
    if k + 1 < members.len() {
        lemma_char(s, rest, q, piece.len() as int);
    } else if l.close.len() > 0 {
        lemma_char(s, l.close, stop, 0);
    }
}

/// Behind the comma after member `k` there is only white space before the key of
/// the next.
proof fn lemma_next_member(s: Name, base: int, members: Seq<MemberV>, level: nat, k: int)
    requires
        base >= 0,
        stands_at(
            s,
            members_text(members, members.len() as int, level) + object_layout(level).close
                + seq!['}'],
            base,
        ),
        0 < k < members.len(),
    ensures
        skip_space(s, base + members_text(members, k, level).len() + 1) == base + members_text(
            members,
            k,
            level,
        ).len() + object_gap(false, level).len(),
        object_gap(false, level).len() > 0,
{
    let l = object_layout(level);
    let all = members_text(members, members.len() as int, level);
    lemma_layouts(level);
    lemma_split(s, all + l.close, seq!['}'], base);
    lemma_split(s, all, l.close, base);
    let rest = lemma_members_prefix(members, k, level);
    let before = members_text(members, k, level);
    lemma_split(s, before, rest, base);
    let at = base + before.len();
    let gap = object_gap(false, level);
    let key = string_text(members[k].key);
    let tail = ": "@ + value_text(members[k].value, level + 1);
    lemma_piece(s, rest, member_text(members, k, level), at);
    assert(member_text(members, k, level) =~= gap + (key + tail));
    lemma_split(s, gap, key + tail, at);
    lemma_split(s, key, tail, at + gap.len());
    lemma_char(s, key, at + gap.len(), 0);
    assert(gap =~= seq![','] + l.next);
    lemma_split(s, seq![','], l.next, at);
    lemma_skip(s, l.next, at + 1);
}

/// Behind the last member there is only white space before the bracket.
proof fn lemma_last_member(s: Name, base: int, members: Seq<MemberV>, level: nat)
    requires
        base >= 0,
        stands_at(
            s,
            members_text(members, members.len() as int, level) + object_layout(level).close
                + seq!['}'],
            base,
        ),
    ensures
        ({
            let stop = base + members_text(members, members.len() as int, level).len();
            let end = stop + object_layout(level).close.len();
            &&& skip_space(s, stop) == end
            &&& end < s.len()
            &&& s[end] == '}'
        }),
{
    let l = object_layout(level);
    let all = members_text(members, members.len() as int, level);
    lemma_layouts(level);
    let end = base + all.len() + l.close.len();
    lemma_split(s, all + l.close, seq!['}'], base);
    lemma_split(s, all, l.close, base);
    lemma_char(s, seq!['}'], end, 0);
    lemma_skip(s, l.close, base + all.len());
}

/// Reading back the members from number `k` on; `p` is before member `k`, with
/// only white space between.
proof fn lemma_members(s: Name, base: int, members: Seq<MemberV>, level: nat, k: int, p: int)
    requires
        base >= 0,
        stands_at(
            s,
            members_text(members, members.len() as int, level) + object_layout(level).close
                + seq!['}'],
            base,
        ),
        distinct_keys(members),
        proper_members(members, members.len() as int),
        0 <= k < members.len(),
        0 <= p,
        p <= base + members_text(members, k, level).len() + object_gap(k == 0, level).len(),
        skip_space(s, p) == base + members_text(members, k, level).len() + object_gap(
            k == 0,
            level,
        ).len(),
    ensures
        read_members(s, p, members.take(k)) == Ok::<(Seq<MemberV>, int), Name>(
            (
                members,
                base + members_text(members, members.len() as int, level).len() + object_layout(
                    level,
                ).close.len() + 1,
            ),
        ),
    decreases members, members.len() - k,
{
    lemma_member_place(s, base, members, level, k);
    let at_key = base + members_text(members, k, level).len() + object_gap(k == 0, level).len();
    let at_colon = at_key + string_text(members[k].key).len();
    let start = at_colon + 2;
    let stop = start + value_text(members[k].value, level + 1).len();
    lemma_string(s, at_key, members[k].key);
    lemma_leading_space(s, p, at_key);
    assert(read_char(s, at_colon, ':') == Ok::<((), int), Name>(((), at_colon + 1)));
    lemma_proper_member(members, members.len() as int, k);
    lemma_value(s, start, members[k].value, level + 1);
    assert(skip_space(s, at_colon + 1) == start);
    lemma_leading_space(s, at_colon + 1, start);
    lemma_fresh_key(members, k);
    if k + 1 < members.len() {
        assert(skip_space(s, stop) == stop);
        lemma_next_member(s, base, members, level, k + 1);
        lemma_members(s, base, members, level, k + 1, stop + 1);
    } else {
        lemma_last_member(s, base, members, level);
        assert(members.take(k + 1) =~= members);
    }
}

/// Reading a document back gives what was written.
pub proof fn read_gives_back_what_was_written(members: Seq<MemberV>)
    requires
        proper(ValueV::Obj(members)),
    ensures
        read_document(document_text(members)) == Ok::<Seq<MemberV>, Name>(members),
{
    reveal_strlit("\n");
    let s = document_text(members);
    let l = object_layout(0);
    let all = members_text(members, members.len() as int, 0);
    let inner = all + l.close + seq!['}'];
    assert(s =~= seq!['{'] + inner + "\n"@);
    let end = (1 + inner.len()) as int;
    assert(s.subrange(1, end) =~= inner);
    assert(stands_at(s, inner, 1));
    assert(skip_space(s, 0) == 0);
    lemma_object(s, 1, members, 0);

    assert(s[end] == '\n');
    assert(skip_space(s, end + 1) == end + 1);
    assert(skip_space(s, end) == s.len());
}

}
