//! Character sequences: comparing, building and rendering text.

use vstd::prelude::*;

verus! {

/// The characters of a name: the mathematical value of a `String`.
pub type Name = Seq<char>;

/// `String::push` appends one character to the end of the string.
pub assume_specification[ String::push ](s: &mut String, c: char)
    ensures
        final(s)@ == old(s)@.push(c),
;

/// The characters of `s`, in order.
pub fn chars_of(s: &str) -> (r: Vec<char>)
    ensures
        r@ == s@,
{
    let mut out: Vec<char> = Vec::new();
    for c in it: s.chars()
        invariant
            it.seq() == s@,
            out@ == it.seq().take(it.index()),
    {
        out.push(c);
    }
    out
}

/// The string made of the characters `chars[lo..hi]`.
pub fn text_of(chars: &Vec<char>, lo: usize, hi: usize) -> (r: String)
    requires
        lo <= hi <= chars@.len(),
    ensures
        r@ == chars@.subrange(lo as int, hi as int),
{
    let mut out = String::new();
    let mut i: usize = lo;
    while i < hi
        invariant
            lo <= i <= hi <= chars@.len(),
            out@ == chars@.subrange(lo as int, i as int),
        decreases hi - i,
    {
        out.push(chars[i]);
        i = i + 1;
        assert(out@ =~= chars@.subrange(lo as int, i as int));
    }
    out
}

/// Whether two strings hold the same characters.
pub fn str_eq(a: &str, b: &str) -> (r: bool)
    ensures
        r == (a@ == b@),
{
    let mut y = b.chars();
    for c in it: a.chars()
        invariant
            it.seq() == a@,
            it.index() <= b@.len(),
            a@.take(it.index()) == b@.take(it.index()),
            vstd::std_specs::iter::IteratorSpec::remaining(&y) == b@.skip(it.index()),
    {
        let ghost i: int = it.index();
        match y.next() {
            None => {
                assert(a@.len() != b@.len());
                return false;
            },
            Some(d) => {
                assert(d == b@[i]);
                if c != d {
                    assert(a@[i] != b@[i]);
                    return false;
                }
                assert(a@.take(i + 1) =~= a@.take(i).push(c));
                assert(b@.take(i + 1) =~= b@.take(i).push(d));
                assert(b@.skip(i).drop_first() =~= b@.skip(i + 1));
            },
        }
    }
    assert(a@.take(a@.len() as int) =~= a@);
    match y.next() {
        None => {
            assert(b@.take(b@.len() as int) =~= b@);
            true
        },
        Some(_) => false,
    }
}

/// Strings are ordered by their first differing character; a proper prefix
/// comes before the longer string.
pub open spec fn lex_lt(a: Name, b: Name) -> bool
    decreases a.len(),
{
    if b.len() == 0 {
        false
    } else if a.len() == 0 {
        true
    } else if a[0] != b[0] {
        a[0] < b[0]
    } else {
        lex_lt(a.drop_first(), b.drop_first())
    }
}

/// Whether `a` comes before `b` in the order of strings.
pub fn str_lt(a: &str, b: &str) -> (r: bool)
    ensures
        r == lex_lt(a@, b@),
{
    let mut y = b.chars();
    assert(a@.skip(0) =~= a@);
    assert(b@.skip(0) =~= b@);
    for c in it: a.chars()
        invariant
            it.seq() == a@,
            it.index() <= b@.len(),
            lex_lt(a@, b@) == lex_lt(a@.skip(it.index()), b@.skip(it.index())),
            vstd::std_specs::iter::IteratorSpec::remaining(&y) == b@.skip(it.index()),
    {
        let ghost i: int = it.index();
        match y.next() {
            None => {
                return false;
            },
            Some(d) => {
                if c != d {
                    return c < d;
                }
                assert(a@.skip(i).drop_first() =~= a@.skip(i + 1));
                assert(b@.skip(i).drop_first() =~= b@.skip(i + 1));
            },
        }
    }
    match y.next() {
        None => false,
        Some(_) => true,
    }
}

pub proof fn lemma_lex_irreflexive(a: Name)
    ensures
        !lex_lt(a, a),
    decreases a.len(),
{
    if a.len() > 0 {
        lemma_lex_irreflexive(a.drop_first());
    }
}

pub proof fn lemma_lex_total(a: Name, b: Name)
    ensures
        lex_lt(a, b) || a == b || lex_lt(b, a),
    decreases a.len(),
{
    if a.len() > 0 && b.len() > 0 {
        if a[0] == b[0] {
            lemma_lex_total(a.drop_first(), b.drop_first());
            if a.drop_first() == b.drop_first() {
                assert(a =~= seq![a[0]] + a.drop_first());
                assert(b =~= seq![b[0]] + b.drop_first());
            }
        }
    } else if a.len() == 0 && b.len() == 0 {
        assert(a =~= b);
    }
}

pub proof fn lemma_lex_transitive(a: Name, b: Name, c: Name)
    requires
        lex_lt(a, b),
        lex_lt(b, c),
    ensures
        lex_lt(a, c),
    decreases a.len(),
{
    if a.len() > 0 && a[0] == b[0] && b[0] == c[0] {
        lemma_lex_transitive(a.drop_first(), b.drop_first(), c.drop_first());
    }
}

/// One decimal digit.
pub open spec fn digit(d: nat) -> char
    recommends
        d < 10,
{
    (('0' as nat) + d) as char
}

/// The decimal numeral of `n`, without leading zeros.
pub open spec fn dec(n: nat) -> Name
    decreases n,
{
    if n < 10 {
        seq![digit(n)]
    } else {
        dec(n / 10).push(digit(n % 10))
    }
}

/// Appends the decimal numeral of `n`.
pub fn push_dec(out: &mut String, n: usize)
    ensures
        final(out)@ == old(out)@ + dec(n as nat),
    decreases n,
{
    let ghost before = out@;
    if n >= 10 {
        push_dec(out, n / 10);
    }
    let d: u8 = (n % 10) as u8;
    let c: char = (48u8 + d) as char;
    out.push(c);
    assert(c == digit((n % 10) as nat));
    assert(out@ =~= before + dec(n as nat));
}

/// The characters that a slice of strings holds.
pub open spec fn names(v: Seq<String>) -> Seq<Name> {
    v.map_values(|s: String| s@)
}

/// The position of the first string of `v` that equals `s`.
pub fn position(v: &Vec<String>, s: &str) -> (r: Option<usize>)
    ensures
        match r {
            Some(i) => i < v@.len() && names(v@)[i as int] == s@ && !names(v@).take(
                i as int,
            ).contains(s@),
            None => !names(v@).contains(s@),
        },
{
    let mut i: usize = 0;
    while i < v.len()
        invariant
            i <= v@.len(),
            forall|j: int| 0 <= j < i ==> names(v@)[j] != s@,
        decreases v@.len() - i,
    {
        if str_eq(v[i].as_str(), s) {
            return Some(i);
        }
        i = i + 1;
    }
    None
}

/// Whether some string of `v` equals `s`.
pub fn has_name(v: &Vec<String>, s: &str) -> (r: bool)
    ensures
        r == names(v@).contains(s@),
{
    match position(v, s) {
        Some(i) => {
            assert(names(v@)[i as int] == s@);
            true
        },
        None => false,
    }
}

/// A copy of a vector of strings.
pub fn clone_names(v: &Vec<String>) -> (r: Vec<String>)
    ensures
        r@ == v@,
{
    let mut out: Vec<String> = Vec::new();
    let mut i: usize = 0;
    while i < v.len()
        invariant
            i <= v@.len(),
            out@ == v@.take(i as int),
        decreases v@.len() - i,
    {
        out.push(v[i].clone());
        i = i + 1;
    }
    assert(out@ =~= v@);
    out
}

/// Strings are ordered as in a dictionary: by the first character in which they
/// differ, and a string comes behind those that it starts with.
pub proof fn order_is_by_the_first_difference(a: Name, b: Name)
    ensures
        lex_lt(a, b) <==> comes_before(a, b),
    decreases a.len(),
{
    if a.len() == 0 {
        if b.len() > 0 {
            assert(b.take(0) =~= a);
        }
    } else if b.len() > 0 && a[0] == b[0] {
        let p = a.drop_first();
        let q = b.drop_first();
        let first = seq![a[0]];
        assert(a =~= first + p);
        assert(b =~= first + q);
        order_is_by_the_first_difference(p, q);
        if p.len() < q.len() && q.take(p.len() as int) == p {
            assert(b.take(a.len() as int) =~= first + q.take(p.len() as int));
        }
        if a.len() < b.len() && b.take(a.len() as int) == a {
            assert(q.take(p.len() as int) =~= b.take(a.len() as int).drop_first());
        }
        if exists|i: int| differs_at(p, q, i) {
            let i = choose|i: int| differs_at(p, q, i);
            assert(a.take(i + 1) =~= first + p.take(i));
            assert(b.take(i + 1) =~= first + q.take(i));
            assert(differs_at(a, b, i + 1));
        }
        if exists|i: int| differs_at(a, b, i) {
            let i = choose|i: int| differs_at(a, b, i);
            assert(i > 0);
            assert(p.take(i - 1) =~= a.take(i).drop_first());
            assert(q.take(i - 1) =~= b.take(i).drop_first());
            assert(differs_at(p, q, i - 1));
        }
    } else if b.len() > 0 {
        if a.len() < b.len() {
            assert(b.take(a.len() as int)[0] == b[0]);
        }
        if a[0] < b[0] {
            assert(a.take(0) =~= b.take(0));
            assert(differs_at(a, b, 0));
        }
        if exists|i: int| differs_at(a, b, i) {
            let i = choose|i: int| differs_at(a, b, i);
            if i > 0 {
                assert(a.take(i)[0] == b.take(i)[0]);
            }
        }
    }
}

/// The strings agree up to position `i`, where `a` has the lesser character.
pub open spec fn differs_at(a: Name, b: Name, i: int) -> bool {
    0 <= i < a.len() && i < b.len() && a.take(i) == b.take(i) && a[i] < b[i]
}

/// `b` starts with `a` and is longer, or has the greater character where they
/// first differ.
pub open spec fn comes_before(a: Name, b: Name) -> bool {
    ||| a.len() < b.len() && b.take(a.len() as int) == a
    ||| exists|i: int| differs_at(a, b, i)
}

/// The number that a string of digits stands for.
pub open spec fn number(s: Name) -> int
    decreases s.len(),
{
    if s.len() == 0 {
        0
    } else {
        10 * number(s.drop_last()) + (s.last() as int - '0' as int)
    }
}

/// A number is written in digits that stand for it, without a leading zero.
pub proof fn numerals_stand_for_their_number(n: nat)
    ensures
        number(dec(n)) == n,
        dec(n).len() > 0,
        forall|i: int| 0 <= i < dec(n).len() ==> '0' <= #[trigger] dec(n)[i] <= '9',
        dec(n).len() > 1 ==> dec(n)[0] != '0',
    decreases n,
{
    let s = dec(n);
    if n < 10 {
        assert(s.drop_last() =~= Seq::<char>::empty());
        assert(number(Seq::<char>::empty()) == 0);
        assert(s.last() == digit(n));
    } else {
        numerals_stand_for_their_number(n / 10);
        let r = dec(n / 10);
        assert(s.drop_last() =~= r);
        assert(s.last() == digit(n % 10));
        assert forall|i: int| 0 <= i < s.len() implies '0' <= #[trigger] s[i] <= '9' by {
            if i < r.len() {
                assert(s[i] == r[i]);
            }
        }
        assert(s[0] == r[0]);
        if r.len() == 1 {
            assert(number(r) == n / 10);
            assert(r.drop_last() =~= Seq::<char>::empty());
            assert(number(Seq::<char>::empty()) == 0);
        }
    }
}

}
