//! Characters and text as the standard library classifies and renders them.
//!
//! White space is decided here, and what is a letter or a number in ASCII. Beyond
//! ASCII those answers come from the standard library's Unicode tables, and the
//! contracts only give them names.

use vstd::prelude::*;

use crate::text::{names, Name};

verus! {

/// The text of `s` in double quotes, with escapes where they are needed.
pub uninterp spec fn quoted(s: Seq<char>) -> Seq<char>;

/// The character `c` in single quotes, with an escape where it is needed.
pub uninterp spec fn quoted_char(c: char) -> Seq<char>;

/// `format!("{:?}", s)` with the `Debug` impl of `str`: the text is a function
/// of the characters of `s` alone, here called `quoted`.
#[verifier::external_body]
pub(crate) fn quote(s: &str) -> (r: String)
    ensures
        r@ == quoted(s@),
{
    format!("{:?}", s)
}

/// `format!("{:?}", c)` with the `Debug` impl of `char`: the text is a function
/// of the character alone, here called `quoted_char`.
#[verifier::external_body]
pub(crate) fn quote_char(c: char) -> (r: String)
    ensures
        r@ == quoted_char(c),
{
    format!("{:?}", c)
}

/// `char::from_u32` gives the character with the code `i`, and `None` exactly
/// where `i` is no Unicode scalar value.
pub assume_specification[ char::from_u32 ](i: u32) -> (r: Option<char>)
    ensures
        match r {
            Some(c) => vstd::utf8::is_scalar(i) && c as u32 == i,
            None => !vstd::utf8::is_scalar(i),
        },
;

/// Texts separated by commas.
pub open spec fn listed(q: Seq<Name>) -> Name
    decreases q.len(),
{
    if q.len() == 0 {
        Seq::empty()
    } else if q.len() == 1 {
        q[0]
    } else {
        listed(q.drop_last()) + ", "@ + q.last()
    }
}

/// The names in double quotes.
pub open spec fn quoted_names(q: Seq<Name>) -> Seq<Name> {
    q.map_values(|s: Name| quoted(s))
}

/// A list of names as it is shown in messages.
pub open spec fn shown_list(q: Seq<Name>) -> Name {
    "["@ + listed(quoted_names(q)) + "]"@
}

/// Appends texts, separated by commas, in square brackets.
pub fn push_bracketed(out: &mut String, q: &Vec<String>)
    ensures
        final(out)@ == old(out)@ + ("["@ + listed(names(q@)) + "]"@),
{
    let ghost start = out@;
    let ghost n = names(q@);
    out.append("[");
    let mut i: usize = 0;
    assert(n.take(0) =~= Seq::empty());
    assert(out@ =~= start + "["@ + listed(n.take(0)));
    while i < q.len()
        invariant
            n == names(q@),
            i <= q@.len(),
            out@ == start + "["@ + listed(n.take(i as int)),
        decreases q@.len() - i,
    {
        assert(n.take(i + 1).drop_last() =~= n.take(i as int));
        assert(n.take(i + 1).last() == q@[i as int]@);
        if i > 0 {
            out.append(", ");
        }
        out.append(q[i].as_str());
        assert(out@ =~= start + "["@ + listed(n.take(i + 1)));
        i = i + 1;
    }
    assert(n.take(i as int) =~= n);
    out.append("]");
    assert(out@ =~= start + ("["@ + listed(n) + "]"@));
}

/// Appends a list of names as it is shown in messages.
pub fn push_list(out: &mut String, q: &Vec<String>)
    ensures
        final(out)@ == old(out)@ + shown_list(names(q@)),
{
    let mut shown: Vec<String> = Vec::new();
    let mut i: usize = 0;
    while i < q.len()
        invariant
            i <= q@.len(),
            shown@.len() == i,
            forall|k: int| 0 <= k < i ==> #[trigger] shown@[k]@ == quoted(q@[k]@),
        decreases q@.len() - i,
    {
        shown.push(quote(q[i].as_str()));
        i = i + 1;
    }
    assert(names(shown@) =~= quoted_names(names(q@)));
    push_bracketed(out, &shown);
}

/// The character has the Unicode property Alphabetic.
pub uninterp spec fn alphabetic(c: char) -> bool;

/// The character is in one of the Unicode categories for numbers.
pub uninterp spec fn numeric(c: char) -> bool;

/// `char::is_alphabetic` depends on the character alone; its answer is called
/// `alphabetic`.
pub assume_specification[ char::is_alphabetic ](c: char) -> (r: bool)
    ensures
        r == alphabetic(c),
;

/// `char::is_numeric` depends on the character alone; its answer is called
/// `numeric`.
pub assume_specification[ char::is_numeric ](c: char) -> (r: bool)
    ensures
        r == numeric(c),
;

/// A letter.
pub open spec fn is_letter(c: char) -> bool {
    if c <= '\x7F' {
        ('a' <= c && c <= 'z') || ('A' <= c && c <= 'Z')
    } else {
        alphabetic(c)
    }
}

/// A letter or a number.
pub open spec fn is_letter_or_number(c: char) -> bool {
    is_letter(c) || if c <= '\x7F' {
        '0' <= c && c <= '9'
    } else {
        numeric(c)
    }
}

/// White space: the characters with the Unicode property White_Space.
pub open spec fn is_blank(c: char) -> bool {
    ||| '\u{9}' <= c && c <= '\u{d}'
    ||| c == ' '
    ||| c == '\u{85}'
    ||| c == '\u{a0}'
    ||| c == '\u{1680}'
    ||| '\u{2000}' <= c && c <= '\u{200a}'
    ||| c == '\u{2028}'
    ||| c == '\u{2029}'
    ||| c == '\u{202f}'
    ||| c == '\u{205f}'
    ||| c == '\u{3000}'
}

/// Whether `c` is a letter.
pub fn letter(c: char) -> (r: bool)
    ensures
        r == is_letter(c),
{
    if c <= '\x7F' {
        ('a' <= c && c <= 'z') || ('A' <= c && c <= 'Z')
    } else {
        c.is_alphabetic()
    }
}

/// Whether `c` is a letter or a number.
pub fn letter_or_number(c: char) -> (r: bool)
    ensures
        r == is_letter_or_number(c),
{
    if letter(c) {
        true
    } else if c <= '\x7F' {
        '0' <= c && c <= '9'
    } else {
        c.is_numeric()
    }
}

/// Whether `c` is white space.
pub fn blank(c: char) -> (r: bool)
    ensures
        r == is_blank(c),
{
    ('\u{9}' <= c && c <= '\u{d}') || c == ' ' || c == '\u{85}' || c == '\u{a0}' || c == '\u{1680}'
        || ('\u{2000}' <= c && c <= '\u{200a}') || c == '\u{2028}' || c == '\u{2029}' || c
        == '\u{202f}' || c == '\u{205f}' || c == '\u{3000}'
}

/// White space is what Unicode calls so: twenty-five characters.
pub proof fn blanks_are_the_white_space_of_unicode(c: char)
    ensures
        is_blank(c) <==> {
            let n = c as u32;
            ||| 0x9 <= n <= 0xD
            ||| n == 0x20 || n == 0x85 || n == 0xA0 || n == 0x1680
            ||| 0x2000 <= n <= 0x200A
            ||| n == 0x2028 || n == 0x2029 || n == 0x202F || n == 0x205F || n == 0x3000
        },
{
}

/// Letters are those of ASCII, and beyond it the alphabetic characters; numbers
/// are the digits, and beyond ASCII the numeric characters.
pub proof fn words_are_made_of_letters_and_numbers(c: char)
    ensures
        'a' <= c <= 'z' || 'A' <= c <= 'Z' ==> is_letter(c) && is_letter_or_number(c),
        '0' <= c <= '9' ==> !is_letter(c) && is_letter_or_number(c),
        c > '\x7F' ==> (is_letter(c) <==> alphabetic(c)) && (is_letter_or_number(c)
            <==> alphabetic(c) || numeric(c)),
        c <= '\x7F' && is_letter(c) ==> 'a' <= c <= 'z' || 'A' <= c <= 'Z',
        c <= '\x7F' && is_letter_or_number(c) ==> is_letter(c) || '0' <= c <= '9',
{
}

}
