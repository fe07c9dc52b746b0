//! A minimal recursive-descent JSON reader.
//!
//! Strings support the standard escapes; numbers are non-negative integers,
//! which is all that the documents read here contain. Positions in messages
//! count bytes of the UTF-8 text.

use vstd::prelude::*;
use vstd::utf8::encode_utf8;

use crate::text::{chars_of, dec, push_dec, str_eq, Name};
use crate::unicode::{quote_char, quoted_char};

verus! {

/// A JSON value.
pub enum Value {
    Str(String),
    Num(usize),
    Arr(Vec<Value>),
    /// The members in the order in which their keys first occur.
    Obj(Vec<Member>),
}

/// One member of a JSON object.
pub struct Member {
    pub key: String,
    pub value: Value,
}

/// The mathematical value of a [`Value`].
pub enum ValueV {
    Str(Name),
    Num(nat),
    Arr(Seq<ValueV>),
    Obj(Seq<MemberV>),
}

/// The mathematical value of a [`Member`].
pub struct MemberV {
    pub key: Name,
    pub value: ValueV,
}

/// The value of a JSON value.
pub open spec fn value_view(v: Value) -> ValueV
    decreases v,
{
    match v {
        Value::Str(s) => ValueV::Str(s@),
        Value::Num(n) => ValueV::Num(n as nat),
        Value::Arr(items) => ValueV::Arr(value_views(items@)),
        Value::Obj(members) => ValueV::Obj(member_views(members@)),
    }
}

/// The values of a sequence of JSON values.
pub open spec fn value_views(v: Seq<Value>) -> Seq<ValueV>
    decreases v,
{
    Seq::new(
        v.len(),
        |i: int|
            if 0 <= i < v.len() {
                value_view(v[i])
            } else {
                arbitrary()
            },
    )
}

/// The values of the members of a JSON object.
pub open spec fn member_views(v: Seq<Member>) -> Seq<MemberV>
    decreases v,
{
    Seq::new(
        v.len(),
        |i: int|
            if 0 <= i < v.len() {
                MemberV { key: v[i].key@, value: value_view(v[i].value) }
            } else {
                arbitrary()
            },
    )
}

/// The position of the first member with the key `key`.
pub open spec fn find_key(obj: Seq<MemberV>, key: Name) -> Option<int>
    decreases obj.len(),
{
    if obj.len() == 0 {
        None
    } else {
        match find_key(obj.drop_last(), key) {
            Some(i) => Some(i),
            None => if obj.last().key == key {
                Some(obj.len() - 1)
            } else {
                None
            },
        }
    }
}

/// The value of the key `key`.
pub open spec fn field(obj: Seq<MemberV>, key: Name) -> Option<ValueV> {
    match find_key(obj, key) {
        Some(i) => Some(obj[i].value),
        None => None,
    }
}

/// The object with the value of `key` set to `value`.
pub open spec fn with_field(obj: Seq<MemberV>, key: Name, value: ValueV) -> Seq<MemberV> {
    match find_key(obj, key) {
        Some(i) => obj.update(i, MemberV { key, value }),
        None => obj.push(MemberV { key, value }),
    }
}

/// The number of bytes that encode the first `i` characters.
pub open spec fn offset(s: Seq<char>, i: int) -> nat {
    encode_utf8(s.take(i)).len()
}

/// The byte at which character `i` starts, as a character of its own.
pub open spec fn byte_at(s: Seq<char>, i: int) -> Option<char> {
    if 0 <= i < s.len() {
        Some(encode_utf8(s)[offset(s, i) as int] as char)
    } else {
        None
    }
}

/// An optional character as it is shown in messages.
pub open spec fn shown(c: Option<char>) -> Name {
    match c {
        Some(c) => "Some("@ + quoted_char(c) + ")"@,
        None => "None"@,
    }
}

/// A space, tab, line feed, form feed or carriage return.
pub open spec fn is_space(c: char) -> bool {
    c == ' ' || c == '\t' || c == '\n' || c == '\x0C' || c == '\r'
}

pub open spec fn is_digit(c: char) -> bool {
    '0' <= c && c <= '9'
}

/// The first position from `i` on that holds no white space.
pub open spec fn skip_space(s: Seq<char>, i: int) -> int
    decreases s.len() - i,
{
    if 0 <= i < s.len() && is_space(s[i]) {
        skip_space(s, i + 1)
    } else {
        i
    }
}

/// What is read from a position on: a value and the position behind it, or a
/// message.
pub type Reading<T> = Result<(T, int), Name>;

/// The character `c` after white space.
pub open spec fn read_char(s: Seq<char>, i: int, c: char) -> Reading<()> {
    let j = skip_space(s, i);
    if j < s.len() && s[j] == c {
        Ok(((), j + 1))
    } else {
        Err(
            "expected '"@ + seq![c] + "' at byte "@ + dec(offset(s, j)) + ", found "@ + shown(
                byte_at(s, j),
            ),
        )
    }
}

/// The value of a hexadecimal digit.
pub open spec fn hex_digit(c: char) -> Option<nat> {
    if '0' <= c && c <= '9' {
        Some((c as nat - '0' as nat) as nat)
    } else if 'a' <= c && c <= 'f' {
        Some((c as nat - 'a' as nat + 10) as nat)
    } else if 'A' <= c && c <= 'F' {
        Some((c as nat - 'A' as nat + 10) as nat)
    } else {
        None
    }
}

/// The value of a sequence of hexadecimal digits.
pub open spec fn hex_value(s: Seq<char>) -> Option<nat>
    decreases s.len(),
{
    if s.len() == 0 {
        Some(0)
    } else {
        match (hex_value(s.drop_last()), hex_digit(s.last())) {
            (Some(h), Some(d)) => Some(h * 16 + d),
            _ => None,
        }
    }
}

/// The value of the four characters of a `\u` escape; a plus sign may stand in
/// place of the first digit.
pub open spec fn unit_value(s: Seq<char>) -> Option<nat> {
    if s[0] == '+' {
        hex_value(s.drop_first())
    } else {
        hex_value(s)
    }
}

/// The character with the code `n`; a code that is no character stands for the
/// replacement character.
pub open spec fn code_char(n: nat) -> char {
    if n <= 0x10FFFF && !(0xD800 <= n <= 0xDFFF) {
        (n as u32) as char
    } else {
        '\u{FFFD}'
    }
}

/// The code unit that the four characters from `i` on stand for.
pub open spec fn read_unit(s: Seq<char>, i: int) -> Result<nat, Name> {
    if encode_utf8(s).len() - offset(s, i) < 4 {
        Err("truncated \\u escape"@)
    } else if i + 4 <= s.len() && unit_value(s.subrange(i, i + 4)) is Some {
        Ok(unit_value(s.subrange(i, i + 4))->0)
    } else {
        Err("bad \\u escape"@)
    }
}

/// The first half of a surrogate pair.
pub open spec fn is_high(n: nat) -> bool {
    0xD800 <= n <= 0xDBFF
}

/// The second half of a surrogate pair.
pub open spec fn is_low(n: nat) -> bool {
    0xDC00 <= n <= 0xDFFF
}

/// A `\u` escape with the second half of a surrogate pair starts at `i`.
pub open spec fn low_follows(s: Seq<char>, i: int) -> bool {
    &&& 0 <= i
    &&& i + 1 < s.len()
    &&& s[i] == '\\'
    &&& s[i + 1] == 'u'
    &&& read_unit(s, i + 2) is Ok
    &&& is_low(read_unit(s, i + 2)->Ok_0)
}

/// The code of the character that a surrogate pair stands for.
pub open spec fn pair_code(high: nat, low: nat) -> nat {
    (0x10000 + (high - 0xD800) * 0x400 + (low - 0xDC00)) as nat
}

/// The character of a `\u` escape whose digits start at `i`, and the position
/// behind it. Two escapes that make a surrogate pair are one character; half a
/// pair stands for the replacement character.
pub open spec fn read_code(s: Seq<char>, i: int) -> Result<(char, int), Name> {
    match read_unit(s, i) {
        Err(e) => Err(e),
        Ok(n) => if is_high(n) && low_follows(s, i + 4) {
            Ok((code_char(pair_code(n, read_unit(s, i + 6)->Ok_0)), i + 10))
        } else {
            Ok((code_char(n), i + 4))
        },
    }
}

/// The rest of a string, of which `out` has been read.
#[verifier::opaque]
pub open spec fn read_text(s: Seq<char>, i: int, out: Name) -> Reading<Name>
    decreases s.len() - i,
{
    if !(0 <= i < s.len()) {
        Err("unterminated string"@)
    } else if s[i] == '"' {
        Ok((out, i + 1))
    } else if s[i] == '\\' {
        if i + 1 < s.len() && s[i + 1] == '"' {
            read_text(s, i + 2, out.push('"'))
        } else if i + 1 < s.len() && s[i + 1] == '\\' {
            read_text(s, i + 2, out.push('\\'))
        } else if i + 1 < s.len() && s[i + 1] == '/' {
            read_text(s, i + 2, out.push('/'))
        } else if i + 1 < s.len() && s[i + 1] == 'n' {
            read_text(s, i + 2, out.push('\n'))
        } else if i + 1 < s.len() && s[i + 1] == 't' {
            read_text(s, i + 2, out.push('\t'))
        } else if i + 1 < s.len() && s[i + 1] == 'r' {
            read_text(s, i + 2, out.push('\r'))
        } else if i + 1 < s.len() && s[i + 1] == 'b' {
            read_text(s, i + 2, out.push('\x08'))
        } else if i + 1 < s.len() && s[i + 1] == 'f' {
            read_text(s, i + 2, out.push('\x0C'))
        } else if i + 1 < s.len() && s[i + 1] == 'u' {
            match read_code(s, i + 2) {
                Ok((c, j)) => if i < j <= s.len() {
                    read_text(s, j, out.push(c))
                } else {
                    arbitrary()
                },
                Err(e) => Err(e),
            }
        } else {
            Err(
                "unknown escape "@ + shown(byte_at(s, i + 1)) + " at byte "@ + dec(
                    offset(s, i + 1),
                ),
            )
        }
    } else {
        read_text(s, i + 1, out.push(s[i]))
    }
}

/// A string.
pub open spec fn read_string(s: Seq<char>, i: int) -> Reading<Name> {
    match read_char(s, i, '"') {
        Ok((_, j)) => read_text(s, j, Seq::empty()),
        Err(e) => Err(e),
    }
}

/// The end of the digits that start at `i`.
pub open spec fn digits_end(s: Seq<char>, i: int) -> int
    decreases s.len() - i,
{
    if 0 <= i < s.len() && is_digit(s[i]) {
        digits_end(s, i + 1)
    } else {
        i
    }
}

/// The number that a sequence of decimal digits stands for.
pub open spec fn digits_value(s: Seq<char>) -> nat
    decreases s.len(),
{
    if s.len() == 0 {
        0
    } else {
        digits_value(s.drop_last()) * 10 + (s.last() as nat - '0' as nat) as nat
    }
}

/// A number, which has to fit a machine word.
pub open spec fn read_number(s: Seq<char>, i: int) -> Reading<ValueV> {
    let j = digits_end(s, i);
    let n = digits_value(s.subrange(i, j));
    if n <= usize::MAX {
        Ok((ValueV::Num(n), j))
    } else {
        Err("bad number at byte "@ + dec(offset(s, i)))
    }
}

/// Any value.
pub open spec fn read_value(s: Seq<char>, i: int) -> Reading<ValueV>
    decreases s.len() - i, 2nat,
{
    let j = skip_space(s, i);
    if i <= j < s.len() && s[j] == '"' {
        match read_string(s, j) {
            Ok((t, k)) => Ok((ValueV::Str(t), k)),
            Err(e) => Err(e),
        }
    } else if i <= j < s.len() && s[j] == '[' {
        read_array(s, j)
    } else if i <= j < s.len() && s[j] == '{' {
        match read_object(s, j) {
            Ok((m, k)) => Ok((ValueV::Obj(m), k)),
            Err(e) => Err(e),
        }
    } else if i <= j < s.len() && is_digit(s[j]) {
        read_number(s, j)
    } else {
        Err("unexpected "@ + shown(byte_at(s, j)) + " at byte "@ + dec(offset(s, j)))
    }
}

/// An array.
pub open spec fn read_array(s: Seq<char>, i: int) -> Reading<ValueV>
    decreases s.len() - i, 1nat,
{
    match read_char(s, i, '[') {
        Err(e) => Err(e),
        Ok((_, j)) => {
            let k = skip_space(s, j);
            if k < s.len() && s[k] == ']' {
                Ok((ValueV::Arr(Seq::empty()), k + 1))
            } else if i < k <= s.len() {
                read_items(s, k, Seq::empty())
            } else {
                arbitrary()
            }
        },
    }
}

/// The rest of an array, of which `items` have been read.
pub open spec fn read_items(s: Seq<char>, i: int, items: Seq<ValueV>) -> Reading<ValueV>
    decreases s.len() - i, 3nat,
{
    match read_value(s, i) {
        Err(e) => Err(e),
        Ok((v, j)) => {
            let k = skip_space(s, j);
            if k < s.len() && s[k] == ',' && i < k {
                read_items(s, k + 1, items.push(v))
            } else if k < s.len() && s[k] == ']' {
                Ok((ValueV::Arr(items.push(v)), k + 1))
            } else {
                Err(
                    "expected ',' or ']' at byte "@ + dec(offset(s, k)) + ", found "@ + shown(
                        byte_at(s, k),
                    ),
                )
            }
        },
    }
}

/// An object.
pub open spec fn read_object(s: Seq<char>, i: int) -> Reading<Seq<MemberV>>
    decreases s.len() - i, 1nat,
{
    match read_char(s, i, '{') {
        Err(e) => Err(e),
        Ok((_, j)) => {
            let k = skip_space(s, j);
            if k < s.len() && s[k] == '}' {
                Ok((Seq::empty(), k + 1))
            } else if i < k <= s.len() {
                read_members(s, k, Seq::empty())
            } else {
                arbitrary()
            }
        },
    }
}

/// The rest of an object, of which `members` have been read. Of two members
/// with the same key the later one stays.
pub open spec fn read_members(s: Seq<char>, i: int, members: Seq<MemberV>) -> Reading<Seq<MemberV>>
    decreases s.len() - i, 3nat,
{
    match read_string(s, i) {
        Err(e) => Err(e),
        Ok((key, j)) => match read_char(s, j, ':') {
            Err(e) => Err(e),
            Ok((_, k)) => if i < k <= s.len() {
                match read_value(s, k) {
                    Err(e) => Err(e),
                    Ok((v, l)) => {
                        let m = skip_space(s, l);
                        if m < s.len() && s[m] == ',' && i < m {
                            read_members(s, m + 1, with_field(members, key, v))
                        } else if m < s.len() && s[m] == '}' {
                            Ok((with_field(members, key, v), m + 1))
                        } else {
                            Err(
                                "expected ',' or '}' at byte "@ + dec(offset(s, m)) + ", found "@
                                    + shown(byte_at(s, m)),
                            )
                        }
                    },
                }
            } else {
                arbitrary()
            },
        },
    }
}

/// A whole document: one object, and nothing but white space around it.
pub open spec fn read_document(s: Seq<char>) -> Result<Seq<MemberV>, Name> {
    match read_object(s, skip_space(s, 0)) {
        Err(e) => Err(e),
        Ok((m, i)) => {
            let j = skip_space(s, i);
            if j == s.len() {
                Ok(m)
            } else {
                Err("trailing data at byte "@ + dec(offset(s, j)))
            }
        },
    }
}

/// The position of the first member with the key `key`.
pub fn position_of(obj: &Vec<Member>, key: &str) -> (r: Option<usize>)
    ensures
        match r {
            Some(i) => i < obj@.len() && find_key(member_views(obj@), key@) == Some(i as int),
            None => find_key(member_views(obj@), key@) is None,
        },
{
    let ghost q = member_views(obj@);
    let mut i: usize = 0;
    while i < obj.len()
        invariant
            q == member_views(obj@),
            i <= obj@.len(),
            find_key(q.take(i as int), key@) is None,
        decreases obj@.len() - i,
    {
        assert(q.take(i + 1).drop_last() =~= q.take(i as int));
        if str_eq(obj[i].key.as_str(), key) {
            proof {
                lemma_find_key_stays(q, key@, i + 1);
            }
            return Some(i);
        }
        i = i + 1;
    }
    assert(q.take(i as int) =~= q);
    None
}

proof fn lemma_find_key_stays(q: Seq<MemberV>, key: Name, n: int)
    requires
        0 <= n <= q.len(),
        find_key(q.take(n), key) is Some,
    ensures
        find_key(q, key) == find_key(q.take(n), key),
    decreases q.len() - n,
{
    if n < q.len() {
        assert(q.take(n + 1).drop_last() =~= q.take(n));
        lemma_find_key_stays(q, key, n + 1);
    } else {
        assert(q.take(n) =~= q);
    }
}

/// The value of the key `key`.
pub fn get<'a>(obj: &'a Vec<Member>, key: &str) -> (r: Option<&'a Value>)
    ensures
        match r {
            Some(v) => field(member_views(obj@), key@) == Some(value_view(*v)),
            None => field(member_views(obj@), key@) is None,
        },
{
    match position_of(obj, key) {
        Some(i) => Some(&obj[i].value),
        None => None,
    }
}

proof fn lemma_encode_push(s: Seq<char>, c: char)
    ensures
        encode_utf8(s.push(c)) == encode_utf8(s) + vstd::utf8::encode_scalar(c as u32),
    decreases s.len(),
{
    let t = s.push(c);
    if s.len() == 0 {
        assert(t.drop_first() =~= Seq::empty());
        assert(encode_utf8(t.drop_first()) =~= Seq::empty());
        assert(encode_utf8(t) =~= vstd::utf8::encode_scalar(c as u32));
    } else {
        assert(t.drop_first() =~= s.drop_first().push(c));
        lemma_encode_push(s.drop_first(), c);
        assert(encode_utf8(t) =~= encode_utf8(s) + vstd::utf8::encode_scalar(c as u32));
    }
}

/// The byte offsets of successive characters.
proof fn lemma_offset(s: Seq<char>, i: int)
    requires
        0 <= i < s.len(),
    ensures
        offset(s, i + 1) == offset(s, i) + vstd::utf8::encode_scalar(s[i] as u32).len(),
        offset(s, i) < offset(s, i + 1),
{
    assert(s.take(i + 1) =~= s.take(i).push(s[i]));
    lemma_encode_push(s.take(i), s[i]);
}

/// Every character takes a byte at least.
pub proof fn lemma_offset_bound(s: Seq<char>, i: int)
    requires
        0 <= i <= s.len(),
    ensures
        offset(s, i) <= encode_utf8(s).len(),
        i < s.len() ==> offset(s, i) < encode_utf8(s).len(),
        encode_utf8(s).len() - offset(s, i) >= s.len() - i,
    decreases s.len() - i,
{
    if i < s.len() {
        lemma_offset(s, i);
        lemma_offset_bound(s, i + 1);
    } else {
        assert(s.take(i) =~= s);
    }
}

/// The text of a document.
struct Source<'a> {
    chars: Vec<char>,
    bytes: &'a [u8],
}

impl<'a> Source<'a> {
    spec fn wf(&self) -> bool {
        self.bytes@ == encode_utf8(self.chars@)
    }

    fn new(src: &'a str) -> (r: Source<'a>)
        ensures
            r.wf(),
            r.chars@ == src@,
    {
        Source { chars: chars_of(src), bytes: src.as_bytes() }
    }

    /// The number of bytes before character `i`.
    fn byte_offset(&self, i: usize) -> (r: usize)
        requires
            self.wf(),
            i <= self.chars@.len(),
        ensures
            r == offset(self.chars@, i as int),
    {
        let total: usize = self.bytes.len();
        let mut n: usize = 0;
        let mut k: usize = 0;
        assert(self.chars@.take(0) =~= Seq::empty());
        while k < i
            invariant
                self.wf(),
                total == self.bytes@.len(),
                k <= i <= self.chars@.len(),
                n == offset(self.chars@, k as int),
            decreases i - k,
        {
            let c: char = self.chars[k];
            proof {
                lemma_offset(self.chars@, k as int);
                lemma_offset_bound(self.chars@, k + 1);
            }
            n = n + width(c);
            k = k + 1;
        }
        n
    }

    /// The byte at which character `i` starts, as a character of its own.
    fn byte(&self, i: usize) -> (r: Option<char>)
        requires
            self.wf(),
            i <= self.chars@.len(),
        ensures
            r == byte_at(self.chars@, i as int),
    {
        if i < self.chars.len() {
            proof {
                lemma_offset_bound(self.chars@, i as int);
            }
            let b: u8 = self.bytes[self.byte_offset(i)];
            Some(b as char)
        } else {
            None
        }
    }

    fn skip(&self, i: usize) -> (r: usize)
        requires
            i <= self.chars@.len(),
        ensures
            r == skip_space(self.chars@, i as int),
            i <= r <= self.chars@.len(),
    {
        let mut j: usize = i;
        while j < self.chars.len() && (self.chars[j] == ' ' || self.chars[j] == '\t'
            || self.chars[j] == '\n' || self.chars[j] == '\x0C' || self.chars[j] == '\r')
            invariant
                i <= j <= self.chars@.len(),
                skip_space(self.chars@, i as int) == skip_space(self.chars@, j as int),
            decreases self.chars@.len() - j,
        {
            j = j + 1;
        }
        j
    }

    /// ` at byte {i}` is left to the caller: the number alone is appended.
    fn push_offset(&self, out: &mut String, i: usize)
        requires
            self.wf(),
            i <= self.chars@.len(),
        ensures
            final(out)@ == old(out)@ + dec(offset(self.chars@, i as int)),
    {
        let n: usize = self.byte_offset(i);
        push_dec(out, n);
    }

    fn push_found(&self, out: &mut String, i: usize)
        requires
            self.wf(),
            i <= self.chars@.len(),
        ensures
            final(out)@ == old(out)@ + shown(byte_at(self.chars@, i as int)),
    {
        let ghost before = out@;
        match self.byte(i) {
            Some(c) => {
                out.append("Some(");
                out.append(quote_char(c).as_str());
                out.append(")");
            },
            None => {
                out.append("None");
            },
        }
        assert(out@ =~= before + shown(byte_at(self.chars@, i as int)));
    }
}

/// The number of bytes that encode `c`.
fn width(c: char) -> (r: usize)
    ensures
        r == vstd::utf8::encode_scalar(c as u32).len(),
{
    let n: u32 = c as u32;
    if n < 0x80 {
        1
    } else if n < 0x800 {
        2
    } else if n < 0x10000 {
        3
    } else {
        4
    }
}

/// The value of a hexadecimal digit.
fn hex_digit_value(c: char) -> (r: Option<u32>)
    ensures
        match r {
            Some(d) => d < 16 && hex_digit(c) == Some(d as nat),
            None => hex_digit(c) is None,
        },
{
    if '0' <= c && c <= '9' {
        Some(c as u32 - '0' as u32)
    } else if 'a' <= c && c <= 'f' {
        Some(c as u32 - 'a' as u32 + 10)
    } else if 'A' <= c && c <= 'F' {
        Some(c as u32 - 'A' as u32 + 10)
    } else {
        None
    }
}

proof fn lemma_hex_none(q: Seq<char>, n: int)
    requires
        0 <= n <= q.len(),
        hex_value(q.take(n)) is None,
    ensures
        hex_value(q) is None,
    decreases q.len() - n,
{
    if n < q.len() {
        assert(q.take(n + 1).drop_last() =~= q.take(n));
        lemma_hex_none(q, n + 1);
    } else {
        assert(q.take(n) =~= q);
    }
}

/// The value of at most four hexadecimal digits.
fn hex_run(chars: &Vec<char>, lo: usize, hi: usize) -> (r: Option<u32>)
    requires
        lo <= hi <= chars@.len(),
        hi - lo <= 4,
    ensures
        match r {
            Some(n) => n <= 0xFFFF && hex_value(chars@.subrange(lo as int, hi as int)) == Some(
                n as nat,
            ),
            None => hex_value(chars@.subrange(lo as int, hi as int)) is None,
        },
{
    let ghost q = chars@.subrange(lo as int, hi as int);
    let mut n: u32 = 0;
    let mut bound: u32 = 1;
    let mut k: usize = lo;
    assert(q.take(0) =~= Seq::empty());
    while k < hi
        invariant
            lo <= k <= hi <= chars@.len(),
            hi - lo <= 4,
            q == chars@.subrange(lo as int, hi as int),
            n < bound,
            k == lo ==> bound == 1,
            k == lo + 1 ==> bound == 16,
            k == lo + 2 ==> bound == 256,
            k == lo + 3 ==> bound == 4096,
            k == lo + 4 ==> bound == 65536,
            hex_value(q.take(k - lo)) == Some(n as nat),
        decreases hi - k,
    {
        let c: char = chars[k];
        assert(q.take(k - lo + 1).drop_last() =~= q.take(k - lo));
        assert(q.take(k - lo + 1).last() == c);
        match hex_digit_value(c) {
            Some(d) => {
                n = n * 16 + d;
                bound = bound * 16;
            },
            None => {
                proof {
                    lemma_hex_none(q, k - lo + 1);
                }
                return None;
            },
        }
        k = k + 1;
    }
    assert(q.take(k - lo) =~= q);
    Some(n)
}

/// The code unit that the four characters from `i` on stand for.
fn unit_at(src: &Source, i: usize) -> (r: Result<u32, String>)
    requires
        src.wf(),
        i <= src.chars@.len(),
    ensures
        match r {
            Ok(n) => n <= 0xFFFF && i + 4 <= src.chars@.len() && read_unit(src.chars@, i as int)
                == Ok::<nat, Name>(n as nat),
            Err(e) => read_unit(src.chars@, i as int) == Err::<nat, Name>(e@),
        },
{
    proof {
        lemma_offset_bound(src.chars@, i as int);
    }
    let at: usize = src.byte_offset(i);
    if src.bytes.len() - at < 4 {
        return Err("truncated \\u escape".to_string());
    }
    if src.chars.len() - i < 4 {
        return Err("bad \\u escape".to_string());
    }
    let ghost q = src.chars@.subrange(i as int, i + 4);
    let lo: usize = if src.chars[i] == '+' {
        i + 1
    } else {
        i
    };
    assert(q[0] == src.chars@[i as int]);
    assert(q.drop_first() =~= src.chars@.subrange(i + 1, i + 4));
    match hex_run(&src.chars, lo, i + 4) {
        Some(n) => Ok(n),
        None => Err("bad \\u escape".to_string()),
    }
}

/// The character with the code `n`.
fn char_of(n: u32) -> (r: char)
    ensures
        r == code_char(n as nat),
{
    match char::from_u32(n) {
        Some(c) => {
            proof {
                vstd::utf8::char_u32_cast(c, n);
            }
            c
        },
        None => '\u{FFFD}',
    }
}

/// The second half of a surrogate pair, where a `\u` escape with one starts at
/// `i`.
fn low_at(src: &Source, i: usize) -> (r: Option<u32>)
    requires
        src.wf(),
        i <= src.chars@.len(),
    ensures
        match r {
            Some(n) => i + 6 <= src.chars@.len() && low_follows(src.chars@, i as int)
                && read_unit(src.chars@, i + 2) == Ok::<nat, Name>(n as nat),
            None => !low_follows(src.chars@, i as int),
        },
{
    if src.chars.len() - i >= 2 && src.chars[i] == '\\' && src.chars[i + 1] == 'u' {
        if let Ok(n) = unit_at(src, i + 2) {
            if 0xDC00 <= n && n <= 0xDFFF {
                return Some(n);
            }
        }
    }
    None
}

/// The character of a `\u` escape whose digits start at `i`, and the position
/// behind it.
fn code_at(src: &Source, i: usize) -> (r: Result<(char, usize), String>)
    requires
        src.wf(),
        i <= src.chars@.len(),
    ensures
        match r {
            Ok((c, j)) => i < j <= src.chars@.len() && read_code(src.chars@, i as int) == Ok::<
                (char, int),
                Name,
            >((c, j as int)),
            Err(e) => read_code(src.chars@, i as int) == Err::<(char, int), Name>(e@),
        },
{
    let n: u32 = unit_at(src, i)?;
    assert(src.chars.len() <= usize::MAX);
    if 0xD800 <= n && n <= 0xDBFF {
        if let Some(low) = low_at(src, i + 4) {
            let code: u32 = 0x10000 + (n - 0xD800) * 0x400 + (low - 0xDC00);
            return Ok((char_of(code), i + 10));
        }
    }
    Ok((char_of(n), i + 4))
}

/// Reads the character `c` after white space.
fn take_char(src: &Source, i: usize, c: char) -> (r: Result<usize, String>)
    requires
        src.wf(),
        i <= src.chars@.len(),
    ensures
        match r {
            Ok(j) => i < j <= src.chars@.len() && read_char(src.chars@, i as int, c) == Ok::<
                ((), int),
                Name,
            >(((), j as int)),
            Err(e) => read_char(src.chars@, i as int, c) == Err::<((), int), Name>(e@),
        },
{
    let j: usize = src.skip(i);
    if j < src.chars.len() && src.chars[j] == c {
        Ok(j + 1)
    } else {
        let mut e = "expected '".to_string();
        e.push(c);
        e.append("' at byte ");
        src.push_offset(&mut e, j);
        e.append(", found ");
        src.push_found(&mut e, j);
        assert(e@ =~= "expected '"@ + seq![c] + "' at byte "@ + dec(offset(src.chars@, j as int))
            + ", found "@ + shown(byte_at(src.chars@, j as int)));
        Err(e)
    }
}

/// Reads a string.
fn take_string(src: &Source, i: usize) -> (r: Result<(String, usize), String>)
    requires
        src.wf(),
        i <= src.chars@.len(),
    ensures
        match r {
            Ok((t, j)) => i < j <= src.chars@.len() && read_string(src.chars@, i as int) == Ok::<
                (Name, int),
                Name,
            >((t@, j as int)),
            Err(e) => read_string(src.chars@, i as int) == Err::<(Name, int), Name>(e@),
        },
{
    let ghost s = src.chars@;
    let start: usize = match take_char(src, i, '"') {
        Ok(j) => j,
        Err(e) => {
            return Err(e);
        },
    };
    let mut out = String::new();
    let mut j: usize = start;
    while j < src.chars.len()
        invariant
            src.wf(),
            s == src.chars@,
            i < start <= j <= s.len(),
            read_char(s, i as int, '"') == Ok::<((), int), Name>(((), start as int)),
            read_text(s, start as int, Seq::empty()) == read_text(s, j as int, out@),
        decreases s.len() - j,
    {
        reveal(read_text);
        let c: char = src.chars[j];
        if c == '"' {
            return Ok((out, j + 1));
        }
        if c == '\\' {
            if j + 1 >= src.chars.len() {
                return Err(unknown_escape(src, j + 1));
            }
            let d: char = src.chars[j + 1];
            if d == '"' {
                out.push('"');
            } else if d == '\\' {
                out.push('\\');
            } else if d == '/' {
                out.push('/');
            } else if d == 'n' {
                out.push('\n');
            } else if d == 't' {
                out.push('\t');
            } else if d == 'r' {
                out.push('\r');
            } else if d == 'b' {
                out.push('\x08');
            } else if d == 'f' {
                out.push('\x0C');
            } else if d == 'u' {
                let (x, k) = code_at(src, j + 2)?;
                out.push(x);
                j = k - 2;
            } else {
                return Err(unknown_escape(src, j + 1));
            }
            j = j + 2;
        } else {
            out.push(c);
            j = j + 1;
        }
    }
    reveal(read_text);
    Err("unterminated string".to_string())
}

fn unknown_escape(src: &Source, i: usize) -> (e: String)
    requires
        src.wf(),
        i <= src.chars@.len(),
    ensures
        e@ == "unknown escape "@ + shown(byte_at(src.chars@, i as int)) + " at byte "@ + dec(
            offset(src.chars@, i as int),
        ),
{
    let mut e = "unknown escape ".to_string();
    src.push_found(&mut e, i);
    e.append(" at byte ");
    src.push_offset(&mut e, i);
    e
}

/// Reads a number.
fn take_number(src: &Source, i: usize) -> (r: Result<(Value, usize), String>)
    requires
        src.wf(),
        i < src.chars@.len(),
        is_digit(src.chars@[i as int]),
    ensures
        match r {
            Ok((v, j)) => i < j <= src.chars@.len() && read_number(src.chars@, i as int) == Ok::<
                (ValueV, int),
                Name,
            >((value_view(v), j as int)),
            Err(e) => read_number(src.chars@, i as int) == Err::<(ValueV, int), Name>(e@),
        },
{
    let ghost s = src.chars@;
    let ghost end = digits_end(s, i as int);
    let ghost q = s.subrange(i as int, end);
    let mut n: usize = 0;
    let mut fits: bool = true;
    let mut j: usize = i;
    assert(s.subrange(i as int, i as int) =~= Seq::empty());
    while j < src.chars.len() && '0' <= src.chars[j] && src.chars[j] <= '9'
        invariant
            s == src.chars@,
            i <= j <= s.len(),
            end == digits_end(s, j as int),
            i < s.len() && is_digit(s[i as int]),
            fits ==> n == digits_value(s.subrange(i as int, j as int)),
            !fits ==> digits_value(s.subrange(i as int, j as int)) > usize::MAX,
        decreases s.len() - j,
    {
        let d: usize = (src.chars[j] as u32 - '0' as u32) as usize;
        proof {
            let t = s.subrange(i as int, j + 1);
            assert(t.drop_last() =~= s.subrange(i as int, j as int));
            assert(t.last() == s[j as int]);
        }
        if fits {
            if n > (usize::MAX - d) / 10 {
                fits = false;
            } else {
                n = n * 10 + d;
            }
        }
        j = j + 1;
    }
    assert(j == end);
    if fits {
        Ok((Value::Num(n), j))
    } else {
        let mut e = "bad number at byte ".to_string();
        src.push_offset(&mut e, i);
        Err(e)
    }
}

/// Sets the value of `key`.
fn put(obj: &mut Vec<Member>, key: String, value: Value)
    ensures
        member_views(final(obj)@) == with_field(
            member_views(old(obj)@),
            key@,
            value_view(value),
        ),
{
    let ghost before = member_views(obj@);
    match position_of(obj, key.as_str()) {
        Some(i) => {
            let m = Member { key, value };
            obj.set(i, m);
            assert(member_views(obj@) =~= before.update(
                i as int,
                MemberV { key: m.key@, value: value_view(m.value) },
            ));
        },
        None => {
            let m = Member { key, value };
            obj.push(m);
            assert(member_views(obj@) =~= before.push(
                MemberV { key: m.key@, value: value_view(m.value) },
            ));
        },
    }
}

fn separator_error(src: &Source, i: usize, what: &str) -> (e: String)
    requires
        src.wf(),
        i <= src.chars@.len(),
    ensures
        e@ == what@ + dec(offset(src.chars@, i as int)) + ", found "@ + shown(
            byte_at(src.chars@, i as int),
        ),
{
    let mut e = what.to_string();
    src.push_offset(&mut e, i);
    e.append(", found ");
    src.push_found(&mut e, i);
    e
}

/// Reads any value.
fn take_value(src: &Source, i: usize) -> (r: Result<(Value, usize), String>)
    requires
        src.wf(),
        i <= src.chars@.len(),
    ensures
        match r {
            Ok((v, j)) => i < j <= src.chars@.len() && read_value(src.chars@, i as int) == Ok::<
                (ValueV, int),
                Name,
            >((value_view(v), j as int)),
            Err(e) => read_value(src.chars@, i as int) == Err::<(ValueV, int), Name>(e@),
        },
    decreases src.chars@.len() - i, 1nat,
{
    let j: usize = src.skip(i);
    if j < src.chars.len() {
        let c: char = src.chars[j];
        if c == '"' {
            return match take_string(src, j) {
                Ok((t, k)) => Ok((Value::Str(t), k)),
                Err(e) => Err(e),
            };
        }
        if c == '[' {
            return take_array(src, j);
        }
        if c == '{' {
            return match take_object(src, j) {
                Ok((m, k)) => Ok((Value::Obj(m), k)),
                Err(e) => Err(e),
            };
        }
        if '0' <= c && c <= '9' {
            return take_number(src, j);
        }
    }
    let mut e = "unexpected ".to_string();
    src.push_found(&mut e, j);
    e.append(" at byte ");
    src.push_offset(&mut e, j);
    Err(e)
}

/// Reads an array.
fn take_array(src: &Source, i: usize) -> (r: Result<(Value, usize), String>)
    requires
        src.wf(),
        i <= src.chars@.len(),
    ensures
        match r {
            Ok((v, j)) => i < j <= src.chars@.len() && read_array(src.chars@, i as int) == Ok::<
                (ValueV, int),
                Name,
            >((value_view(v), j as int)),
            Err(e) => read_array(src.chars@, i as int) == Err::<(ValueV, int), Name>(e@),
        },
    decreases src.chars@.len() - i, 0nat,
{
    let ghost s = src.chars@;
    let open: usize = match take_char(src, i, '[') {
        Ok(j) => j,
        Err(e) => {
            return Err(e);
        },
    };
    let mut items: Vec<Value> = Vec::new();
    assert(value_views(items@) =~= Seq::empty());
    let first: usize = src.skip(open);
    if first < src.chars.len() && src.chars[first] == ']' {
        return Ok((Value::Arr(items), first + 1));
    }
    let mut j: usize = first;
    loop
        invariant
            src.wf(),
            s == src.chars@,
            i < j <= s.len(),
            read_array(s, i as int) == read_items(s, j as int, value_views(items@)),
        decreases s.len() - j,
    {
        let ghost before = value_views(items@);
        let (v, k) = match take_value(src, j) {
            Ok(x) => x,
            Err(e) => {
                return Err(e);
            },
        };
        let l: usize = src.skip(k);
        items.push(v);
        assert(value_views(items@) =~= before.push(value_view(v)));
        if l < src.chars.len() && src.chars[l] == ',' {
            j = l + 1;
        } else if l < src.chars.len() && src.chars[l] == ']' {
            return Ok((Value::Arr(items), l + 1));
        } else {
            return Err(separator_error(src, l, "expected ',' or ']' at byte "));
        }
    }
}

/// Reads an object.
fn take_object(src: &Source, i: usize) -> (r: Result<(Vec<Member>, usize), String>)
    requires
        src.wf(),
        i <= src.chars@.len(),
    ensures
        match r {
            Ok((m, j)) => i < j <= src.chars@.len() && read_object(src.chars@, i as int) == Ok::<
                (Seq<MemberV>, int),
                Name,
            >((member_views(m@), j as int)),
            Err(e) => read_object(src.chars@, i as int) == Err::<(Seq<MemberV>, int), Name>(e@),
        },
    decreases src.chars@.len() - i, 0nat,
{
    let ghost s = src.chars@;
    let open: usize = match take_char(src, i, '{') {
        Ok(j) => j,
        Err(e) => {
            return Err(e);
        },
    };
    let mut members: Vec<Member> = Vec::new();
    assert(member_views(members@) =~= Seq::empty());
    let first: usize = src.skip(open);
    if first < src.chars.len() && src.chars[first] == '}' {
        return Ok((members, first + 1));
    }
    let mut j: usize = first;
    loop
        invariant
            src.wf(),
            s == src.chars@,
            i < j <= s.len(),
            read_object(s, i as int) == read_members(s, j as int, member_views(members@)),
        decreases s.len() - j,
    {
        let (key, k) = match take_string(src, j) {
            Ok(x) => x,
            Err(e) => {
                return Err(e);
            },
        };
        let l: usize = match take_char(src, k, ':') {
            Ok(x) => x,
            Err(e) => {
                return Err(e);
            },
        };
        let (v, m) = match take_value(src, l) {
            Ok(x) => x,
            Err(e) => {
                return Err(e);
            },
        };
        let n: usize = src.skip(m);
        put(&mut members, key, v);
        if n < src.chars.len() && src.chars[n] == ',' {
            j = n + 1;
        } else if n < src.chars.len() && src.chars[n] == '}' {
            return Ok((members, n + 1));
        } else {
            return Err(separator_error(src, n, "expected ',' or '}' at byte "));
        }
    }
}

/// Reads a whole document.
pub fn parse_document(text: &str) -> (r: Result<Vec<Member>, String>)
    ensures
        match r {
            Ok(m) => read_document(text@) == Ok::<Seq<MemberV>, Name>(member_views(m@)),
            Err(e) => read_document(text@) == Err::<Seq<MemberV>, Name>(e@),
        },
{
    let src = Source::new(text);
    let start: usize = src.skip(0);
    match take_object(&src, start) {
        Err(e) => Err(e),
        Ok((m, i)) => {
            let j: usize = src.skip(i);
            if j == src.chars.len() {
                Ok(m)
            } else {
                let mut e = "trailing data at byte ".to_string();
                src.push_offset(&mut e, j);
                Err(e)
            }
        },
    }
}

}
