//! Paths and types as text.

use vstd::prelude::*;

use crate::text::{chars_of, str_eq, Name};

verus! {

/// `t` is at the end of `s`.
pub open spec fn has_suffix(s: Name, t: Name) -> bool {
    t.len() <= s.len() && s.skip(s.len() - t.len()) == t
}

/// `t` is at the start of `s`.
pub open spec fn has_prefix(s: Name, t: Name) -> bool {
    t.len() <= s.len() && s.take(t.len() as int) == t
}

/// `t` is at position `i` of `s`.
pub open spec fn stands_at(s: Name, t: Name, i: int) -> bool {
    0 <= i && i + t.len() <= s.len() && s.subrange(i, i + t.len()) == t
}

/// `t` is somewhere in `s`.
pub open spec fn has_part(s: Name, t: Name) -> bool {
    exists|i: int| stands_at(s, t, i)
}

/// Whether `t` is at position `i` of `s`.
fn at(s: &Vec<char>, t: &Vec<char>, i: usize) -> (r: bool)
    ensures
        r == stands_at(s@, t@, i as int),
{
    if i > s.len() || t.len() > s.len() - i {
        return false;
    }
    let n: usize = s.len();
    let mut k: usize = 0;
    while k < t.len()
        invariant
            n == s@.len(),
            i + t@.len() <= n,
            k <= t@.len(),
            forall|j: int| 0 <= j < k ==> s@[i + j] == t@[j],
        decreases t@.len() - k,
    {
        if s[i + k] != t[k] {
            assert(s@.subrange(i as int, i + t@.len())[k as int] != t@[k as int]);
            return false;
        }
        k = k + 1;
    }
    assert(s@.subrange(i as int, i + t@.len()) =~= t@);
    true
}

/// Whether `s` ends with `t`.
pub fn ends_with(s: &str, t: &str) -> (r: bool)
    ensures
        r == has_suffix(s@, t@),
{
    let a = chars_of(s);
    let b = chars_of(t);
    if b.len() > a.len() {
        return false;
    }
    let i: usize = a.len() - b.len();
    assert(s@.skip(i as int) =~= s@.subrange(i as int, i + t@.len()));
    at(&a, &b, i)
}

/// Whether `s` starts with `t`.
pub fn starts_with(s: &str, t: &str) -> (r: bool)
    ensures
        r == has_prefix(s@, t@),
{
    let a = chars_of(s);
    let b = chars_of(t);
    if b.len() > a.len() {
        return false;
    }
    assert(s@.take(t@.len() as int) =~= s@.subrange(0, t@.len() as int));
    at(&a, &b, 0)
}

/// Whether `t` is somewhere in `s`.
pub fn contains(s: &str, t: &str) -> (r: bool)
    ensures
        r == has_part(s@, t@),
{
    let a = chars_of(s);
    let b = chars_of(t);
    let mut i: usize = 0;
    while i < a.len()
        invariant
            a@ == s@,
            b@ == t@,
            i <= a@.len(),
            forall|j: int| 0 <= j < i ==> !stands_at(s@, t@, j),
        decreases a@.len() - i,
    {
        if at(&a, &b, i) {
            assert(stands_at(s@, t@, i as int));
            return true;
        }
        i = i + 1;
    }
    let last = at(&a, &b, i);
    proof {
        if last {
            assert(stands_at(s@, t@, i as int));
        } else if has_part(s@, t@) {
            let j = choose|j: int| stands_at(s@, t@, j);
            assert(j <= a@.len());
        }
    }
    last
}

/// Where the bracket that is open at depth `depth` closes, from `i` on.
pub open spec fn bracket_end(s: Name, i: int, depth: nat) -> int
    decreases s.len() - i,
{
    if !(0 <= i < s.len()) {
        i
    } else if s[i] == '<' {
        bracket_end(s, i + 1, depth + 1)
    } else if s[i] == '>' {
        if depth <= 1 {
            i
        } else {
            bracket_end(s, i + 1, (depth - 1) as nat)
        }
    } else {
        bracket_end(s, i + 1, depth)
    }
}

/// A generic segment starts at `i`.
pub open spec fn opens_generics(s: Name, i: int) -> bool {
    0 <= i && i + 2 < s.len() && s[i] == ':' && s[i + 1] == ':' && s[i + 2] == '<'
}

/// The rest of `s` from `i` on, without its generic segments, after `out`.
pub open spec fn stripped_from(s: Name, i: int, out: Name) -> Name
    decreases s.len() - i,
{
    if !(0 <= i < s.len()) {
        out
    } else if opens_generics(s, i) {
        let j = bracket_end(s, i + 2, 0) + 1;
        if i < j <= s.len() {
            stripped_from(s, j, out)
        } else {
            out
        }
    } else {
        stripped_from(s, i + 1, out.push(s[i]))
    }
}

/// The path `s` without its `::<...>` segments.
pub open spec fn stripped(s: Name) -> Name {
    stripped_from(s, 0, Seq::empty())
}

/// Removes the `::<...>` segments from a path, so that
/// `std::sync::Mutex::<T>::lock` compares as `std::sync::Mutex::lock`.
pub fn strip_generics(p: &str) -> (r: String)
    ensures
        r@ == stripped(p@),
{
    let s = chars_of(p);
    let n: usize = s.len();
    let mut out = String::new();
    let mut i: usize = 0;
    while i < n
        invariant
            s@ == p@,
            n == s@.len(),
            i <= n,
            stripped(s@) == stripped_from(s@, i as int, out@),
        decreases n - i,
    {
        if n - i > 2 && s[i] == ':' && s[i + 1] == ':' && s[i + 2] == '<' {
            let start: usize = i;
            let mut j: usize = i + 2;
            let mut depth: usize = 0;
            while j < n && !(s[j] == '>' && depth <= 1)
                invariant
                    n == s@.len(),
                    start + 2 <= j <= n,
                    depth <= j,
                    bracket_end(s@, start + 2, 0) == bracket_end(s@, j as int, depth as nat),
                decreases n - j,
            {
                if s[j] == '<' {
                    depth = depth + 1;
                } else if s[j] == '>' {
                    depth = depth - 1;
                }
                j = j + 1;
            }
            assert(bracket_end(s@, start + 2, 0) == j);
            if j < n {
                i = j + 1;
            } else {
                i = n;
            }
        } else {
            out.push(s[i]);
            i = i + 1;
        }
    }
    out
}

/// The rest of `s` from `i` on, inside `depth` brackets, without what the
/// brackets hold, after `out`. The arrow of a function type is no bracket.
pub open spec fn erased_from(s: Name, i: int, depth: nat, out: Name) -> Name
    decreases s.len() - i,
{
    if !(0 <= i < s.len()) {
        out
    } else if s[i] == '<' {
        erased_from(s, i + 1, depth + 1, out)
    } else if depth == 0 {
        erased_from(s, i + 1, 0, out.push(s[i]))
    } else if s[i] == '>' && s[i - 1] != '-' {
        erased_from(s, i + 1, (depth - 1) as nat, out)
    } else {
        erased_from(s, i + 1, depth, out)
    }
}

/// The type `s` without its type arguments.
pub open spec fn erased(s: Name) -> Name {
    erased_from(s, 0, 0, Seq::empty())
}

/// Removes the type arguments from a type, so that a lock seen in a generic body
/// and the same lock seen in a concrete one are shown alike.
pub fn erase_args(text: &str) -> (r: String)
    ensures
        r@ == erased(text@),
{
    let s = chars_of(text);
    let n: usize = s.len();
    let mut out = String::new();
    let mut depth: usize = 0;
    let mut i: usize = 0;
    while i < n
        invariant
            s@ == text@,
            n == s@.len(),
            i <= n,
            depth <= i,
            erased(s@) == erased_from(s@, i as int, depth as nat, out@),
        decreases n - i,
    {
        if s[i] == '<' {
            depth = depth + 1;
        } else if depth == 0 {
            out.push(s[i]);
        } else if s[i] == '>' && s[i - 1] != '-' {
            depth = depth - 1;
        }
        i = i + 1;
    }
    out
}

/// How many brackets are open after the first `n` characters of `a`.
pub open spec fn depth_after(a: Name, n: int) -> int
    decreases n,
{
    if 0 < n <= a.len() {
        let before = depth_after(a, n - 1);
        if a[n - 1] == '<' {
            before + 1
        } else if a[n - 1] == '>' && !(n > 1 && a[n - 2] == '-') {
            before - 1
        } else {
            before
        }
    } else {
        0
    }
}

/// The text is a list of type arguments: its brackets match.
pub open spec fn is_argument_list(a: Name) -> bool {
    &&& forall|n: int| 0 <= n <= a.len() ==> #[trigger] depth_after(a, n) >= 0
    &&& depth_after(a, a.len() as int) == 0
    &&& a.len() > 0 ==> a.last() != '-'
}

/// Type arguments do not split a class: a type is shown alike whatever its
/// arguments are.
pub proof fn arguments_are_erased(path: Name, a: Name)
    requires
        !path.contains('<'),
        is_argument_list(a),
    ensures
        erased(path + seq!['<'] + a + seq!['>']) == path,
{
    let rest = Seq::<char>::empty();
    arguments_are_erased_everywhere(path, a, rest);
    assert(path + seq!['<'] + a + seq!['>'] + rest =~= path + seq!['<'] + a + seq!['>']);
    assert(path + erased(rest) =~= path);
}

proof fn lemma_path_kept(s: Name, path: Name, i: int)
    requires
        0 <= i <= path.len() <= s.len(),
        s.take(path.len() as int) == path,
        !path.contains('<'),
    ensures
        erased(s) == erased_from(s, i, 0, path.take(i)),
    decreases i,
{
    if i > 0 {
        lemma_path_kept(s, path, i - 1);
        assert(s[i - 1] == s.take(path.len() as int)[i - 1]);
        assert(path.contains(path[i - 1]));
        assert(path.take(i) =~= path.take(i - 1).push(path[i - 1]));
    } else {
        assert(path.take(0) =~= Seq::empty());
    }
}

/// The stripped path of a method that takes a lock.
pub open spec fn takes_lock(p: Name) -> bool {
    ||| has_suffix(p, "Mutex::lock"@)
    ||| has_suffix(p, "RwLock::read"@)
    ||| has_suffix(p, "RwLock::write"@)
    ||| has_prefix(p, "parking_lot"@) && (has_suffix(p, "::lock"@) || has_suffix(p, "::read"@)
        || has_suffix(p, "::write"@) || has_suffix(p, "::read_recursive"@) || has_suffix(
        p,
        "::upgradable_read"@,
    ))
    ||| has_prefix(p, "spin"@) && (has_suffix(p, "::lock"@) || has_suffix(p, "::read"@)
        || has_suffix(p, "::write"@))
}

/// Whether the path is that of a method that takes a lock.
pub fn is_lock_acquire(path: &str) -> (r: bool)
    ensures
        r == takes_lock(stripped(path@)),
{
    let p = strip_generics(path);
    let p = p.as_str();
    ends_with(p, "Mutex::lock") || ends_with(p, "RwLock::read") || ends_with(p, "RwLock::write")
        || (starts_with(p, "parking_lot") && (ends_with(p, "::lock") || ends_with(p, "::read")
        || ends_with(p, "::write") || ends_with(p, "::read_recursive") || ends_with(
        p,
        "::upgradable_read",
    ))) || (starts_with(p, "spin") && (ends_with(p, "::lock") || ends_with(p, "::read")
        || ends_with(p, "::write")))
}

/// The stripped path of `Result::unwrap` or `Result::expect`.
pub open spec fn unwraps(p: Name) -> bool {
    has_suffix(p, "Result::unwrap"@) || has_suffix(p, "Result::expect"@)
}

/// Whether the path is that of `Result::unwrap` or `Result::expect`: the std
/// guards are reached through this call.
pub fn is_result_unwrap(path: &str) -> (r: bool)
    ensures
        r == unwraps(stripped(path@)),
{
    let p = strip_generics(path);
    ends_with(p.as_str(), "Result::unwrap") || ends_with(p.as_str(), "Result::expect")
}

/// The stripped path of `Deref::deref` or `DerefMut::deref_mut`.
pub open spec fn derefs(p: Name) -> bool {
    has_suffix(p, "Deref::deref"@) || has_suffix(p, "DerefMut::deref_mut"@)
}

/// Whether the path is that of `Deref::deref` or `DerefMut::deref_mut`.
pub fn is_deref_call(path: &str) -> (r: bool)
    ensures
        r == derefs(stripped(path@)),
{
    let p = strip_generics(path);
    ends_with(p.as_str(), "Deref::deref") || ends_with(p.as_str(), "DerefMut::deref_mut")
}

/// The stripped path of `mem::drop`.
pub open spec fn drops(p: Name) -> bool {
    p == "std::mem::drop"@ || p == "core::mem::drop"@ || has_suffix(p, "mem::drop"@)
}

/// Whether the path is that of `mem::drop`, which releases its argument.
pub fn is_mem_drop(path: &str) -> (r: bool)
    ensures
        r == drops(stripped(path@)),
{
    let p = strip_generics(path);
    str_eq(p.as_str(), "std::mem::drop") || str_eq(p.as_str(), "core::mem::drop") || ends_with(
        p.as_str(),
        "mem::drop",
    )
}

/// The stripped path of a call of a callable value.
pub open spec fn calls_value(p: Name) -> bool {
    has_suffix(p, "FnOnce::call_once"@) || has_suffix(p, "FnMut::call_mut"@) || has_suffix(
        p,
        "Fn::call"@,
    )
}

/// Whether the path is that of one of the `Fn`, `FnMut` and `FnOnce` call shims:
/// an indirect call on a callable value.
pub fn is_fn_call_shim(path: &str) -> (r: bool)
    ensures
        r == calls_value(stripped(path@)),
{
    let p = strip_generics(path);
    ends_with(p.as_str(), "FnOnce::call_once") || ends_with(p.as_str(), "FnMut::call_mut")
        || ends_with(p.as_str(), "Fn::call")
}

/// The stripped path of a function that enters a critical section.
pub open spec fn enters_section(p: Name) -> bool {
    p == "critical_section::with"@ || has_suffix(p, "::interrupt::free"@) || has_suffix(
        p,
        "interrupt::free"@,
    )
}

/// Whether the path is that of a function that masks interrupts and runs a
/// closure: `critical_section::with` or `cortex_m::interrupt::free`.
pub fn is_critical_section_enter(path: &str) -> (r: bool)
    ensures
        r == enters_section(stripped(path@)),
{
    let p = strip_generics(path);
    str_eq(p.as_str(), "critical_section::with") || ends_with(p.as_str(), "::interrupt::free")
        || ends_with(p.as_str(), "interrupt::free")
}

/// The last segment of the path is `name`.
pub open spec fn is_named(p: Name, name: Name) -> bool {
    p == name || has_suffix(p, "::"@ + name)
}

/// Whether the last segment of the path is `name`.
pub fn named(p: &str, name: &str) -> (r: bool)
    ensures
        r == is_named(p@, name@),
{
    let mut tail = "::".to_string();
    tail.append(name);
    str_eq(p, name) || ends_with(p, tail.as_str())
}

/// The path, without arguments, of a wrapper whose `deref` gives the value that
/// it points to, rather than a part of itself.
pub open spec fn points(p: Name) -> bool {
    is_named(p, "Arc"@) || is_named(p, "Rc"@) || is_named(p, "Box"@) || is_named(p, "Lazy"@)
}

/// Whether the path, without arguments, is that of a wrapper whose `deref` gives
/// the value that it points to.
pub fn is_pointer(p: &str) -> (r: bool)
    ensures
        r == points(p@),
{
    named(p, "Arc") || named(p, "Rc") || named(p, "Box") || named(p, "Lazy")
}

/// No generic segment starts in the text.
pub open spec fn is_bare(s: Name) -> bool {
    forall|i: int|
        0 <= i < s.len() - 2 ==> !(#[trigger] s[i] == ':' && s[i + 1] == ':' && s[i + 2] == '<')
}

/// How many more brackets are opened than closed in the first `n` characters.
pub open spec fn opened(a: Name, n: int) -> int
    decreases n,
{
    if 0 < n <= a.len() {
        opened(a, n - 1) + if a[n - 1] == '<' {
            1int
        } else if a[n - 1] == '>' {
            -1int
        } else {
            0int
        }
    } else {
        0
    }
}

/// Every bracket in the text is opened before it is closed, and closed.
pub open spec fn is_nested(a: Name) -> bool {
    &&& forall|n: int| 0 <= n <= a.len() ==> #[trigger] opened(a, n) >= 0
    &&& opened(a, a.len() as int) == 0
}

proof fn lemma_bracket(s: Name, i: int, a: Name, n: int)
    requires
        0 <= i,
        i + 1 + a.len() < s.len(),
        s[i] == '<',
        s.subrange(i + 1, i + 1 + a.len()) == a,
        s[i + 1 + a.len()] == '>',
        is_nested(a),
        0 <= n <= a.len(),
    ensures
        bracket_end(s, i, 0) == bracket_end(s, i + 1 + n, (1 + opened(a, n)) as nat),
    decreases n,
{
    if n > 0 {
        lemma_bracket(s, i, a, n - 1);
        assert(opened(a, n - 1) >= 0 && opened(a, n) >= 0);
        assert(s[i + n] == s.subrange(i + 1, i + 1 + a.len())[n - 1]);
    }
}

/// The rest of a text is stripped alike wherever it stands.
proof fn lemma_bracket_shift(s: Name, k: int, i: int, depth: nat)
    requires
        0 <= k <= s.len(),
        0 <= i,
    ensures
        bracket_end(s, k + i, depth) == k + bracket_end(s.skip(k), i, depth),
    decreases s.len() - k - i,
{
    let t = s.skip(k);
    if i < t.len() {
        assert(t[i] == s[k + i]);
        if t[i] == '<' {
            lemma_bracket_shift(s, k, i + 1, depth + 1);
        } else if t[i] == '>' {
            if depth > 1 {
                lemma_bracket_shift(s, k, i + 1, (depth - 1) as nat);
            }
        } else {
            lemma_bracket_shift(s, k, i + 1, depth);
        }
    }
}

proof fn lemma_bracket_grows(s: Name, i: int, depth: nat)
    requires
        0 <= i <= s.len(),
    ensures
        i <= bracket_end(s, i, depth) <= s.len(),
    decreases s.len() - i,
{
    if i < s.len() {
        if s[i] == '<' {
            lemma_bracket_grows(s, i + 1, depth + 1);
        } else if s[i] == '>' {
            if depth > 1 {
                lemma_bracket_grows(s, i + 1, (depth - 1) as nat);
            }
        } else {
            lemma_bracket_grows(s, i + 1, depth);
        }
    }
}

proof fn lemma_strip_shift(s: Name, k: int, i: int, front: Name, out: Name)
    requires
        0 <= k <= s.len(),
        0 <= i <= s.len() - k,
    ensures
        stripped_from(s, k + i, front + out) == front + stripped_from(s.skip(k), i, out),
    decreases s.len() - k - i,
{
    let t = s.skip(k);
    if i < t.len() {
        assert(t[i] == s[k + i]);
        assert(opens_generics(s, k + i) == opens_generics(t, i)) by {
            if i + 2 < t.len() {
                assert(t[i + 1] == s[k + i + 1]);
                assert(t[i + 2] == s[k + i + 2]);
            }
        }
        if opens_generics(t, i) {
            lemma_bracket_shift(s, k, i + 2, 0);
            lemma_bracket_grows(t, i + 2, 0);
            let j = bracket_end(t, i + 2, 0) + 1;
            if j <= t.len() {
                lemma_strip_shift(s, k, j, front, out);
            }
        } else {
            lemma_strip_shift(s, k, i + 1, front, out.push(t[i]));
            assert(front + out.push(t[i]) =~= (front + out).push(s[k + i]));
        }
    }
}

proof fn lemma_bare(s: Name, front: Name, i: int)
    requires
        0 <= i <= front.len() <= s.len(),
        s.take(front.len() as int) == front,
        forall|k: int| 0 <= k < front.len() ==> !#[trigger] opens_generics(s, k),
    ensures
        stripped(s) == stripped_from(s, i, front.take(i)),
    decreases i,
{
    if i > 0 {
        lemma_bare(s, front, i - 1);
        assert(!opens_generics(s, i - 1));
        assert(s[i - 1] == s.take(front.len() as int)[i - 1]);
        assert(front.take(i) =~= front.take(i - 1).push(front[i - 1]));
    } else {
        assert(front.take(0) =~= Seq::empty());
    }
}

/// Generic segments do not tell paths apart: `A::<..>::f` is stripped to `A::f`,
/// whatever the arguments are, and a path without such segments stays as it is.
pub proof fn generic_segments_are_stripped(front: Name, args: Name, rest: Name)
    requires
        is_bare(front),
        is_nested(args),
    ensures
        stripped(front) == front,
        stripped(front + seq![':', ':', '<'] + args + seq!['>'] + rest) == front + stripped(rest),
{
    assert(front.take(front.len() as int) =~= front);
    assert forall|k: int| 0 <= k < front.len() implies !#[trigger] opens_generics(front, k) by {
        if k < front.len() - 2 {
            assert(!(front[k] == ':' && front[k + 1] == ':' && front[k + 2] == '<'));
        }
    }
    lemma_bare(front, front, front.len() as int);
    let s = front + seq![':', ':', '<'] + args + seq!['>'] + rest;
    let n = front.len() as int;
    assert(s.take(n) =~= front);
    assert(s[n] == ':' && s[n + 1] == ':' && s[n + 2] == '<');
    assert forall|k: int| 0 <= k < n implies !#[trigger] opens_generics(s, k) by {
        if k < n - 2 {
            assert(s[k] == front[k] && s[k + 1] == front[k + 1] && s[k + 2] == front[k + 2]);
            assert(!(front[k] == ':' && front[k + 1] == ':' && front[k + 2] == '<'));
        } else if k == n - 2 {
            assert(s[k + 2] == ':');
        } else {
            assert(s[k + 2] == ':');
        }
    }
    lemma_bare(s, front, n);
    let close = n + 3 + args.len();
    assert(s.subrange(n + 3, close) =~= args);
    assert(s[close] == '>');
    lemma_bracket(s, n + 2, args, args.len() as int);
    assert(bracket_end(s, n + 2, 0) == close);
    assert(s.skip(close + 1) =~= rest);
    lemma_strip_shift(s, close + 1, 0, front, Seq::empty());
    assert(front + Seq::<char>::empty() =~= front);
    assert(stripped_from(s, n, front) == stripped_from(s, close + 1, front));
}

/// The pointers that are seen through are `Arc`, `Rc`, `Box` and `Lazy`, by their
/// own name or at the end of a path.
pub proof fn pointers_are_known_by_name(front: Name, p: Name)
    ensures
        points("Arc"@) && points(front + "::Arc"@),
        points("Rc"@) && points(front + "::Rc"@),
        points("Box"@) && points(front + "::Box"@),
        points("Lazy"@) && points(front + "::Lazy"@),
        points(p) ==> {
            ||| p == "Arc"@ || p == "Rc"@ || p == "Box"@ || p == "Lazy"@
            ||| exists|f: Name|
                p == #[trigger] (f + "::Arc"@) || p == f + "::Rc"@ || p == f + "::Box"@ || p == f
                    + "::Lazy"@
        },
{
    reveal_strlit("::");
    reveal_strlit("Arc");
    reveal_strlit("Rc");
    reveal_strlit("Box");
    reveal_strlit("Lazy");
    reveal_strlit("::Arc");
    reveal_strlit("::Rc");
    reveal_strlit("::Box");
    reveal_strlit("::Lazy");
    lemma_named(front, p, "Arc"@, "::Arc"@);
    lemma_named(front, p, "Rc"@, "::Rc"@);
    lemma_named(front, p, "Box"@, "::Box"@);
    lemma_named(front, p, "Lazy"@, "::Lazy"@);
    if points(p) {
        let f = if has_suffix(p, "::Arc"@) {
            p.take(p.len() - 5)
        } else if has_suffix(p, "::Rc"@) {
            p.take(p.len() - 4)
        } else if has_suffix(p, "::Box"@) {
            p.take(p.len() - 5)
        } else {
            p.take(p.len() - 6)
        };
        let arc = f + "::Arc"@;
        assert(p == arc || p != arc);
    }
}

proof fn lemma_named(front: Name, p: Name, name: Name, tail: Name)
    requires
        "::"@ + name =~= tail,
    ensures
        is_named(name, name),
        is_named(front + tail, name),
        is_named(p, name) ==> p == name || has_suffix(p, tail) && p == p.take(p.len() - tail.len())
            + tail,
{
    assert((front + tail).skip(front.len() as int) =~= tail);
    if has_suffix(p, tail) {
        assert(p =~= p.take(p.len() - tail.len()) + p.skip(p.len() - tail.len()));
    }
}

/// The calls that are seen through are those of `Deref::deref` and
/// `DerefMut::deref_mut`, wherever the traits are found.
pub proof fn derefs_are_known_by_name(front: Name, p: Name)
    ensures
        derefs(front + "Deref::deref"@),
        derefs(front + "DerefMut::deref_mut"@),
        derefs(p) ==> exists|f: Name|
            p == #[trigger] (f + "Deref::deref"@) || p == f + "DerefMut::deref_mut"@,
{
    let a = "Deref::deref"@;
    let b = "DerefMut::deref_mut"@;
    assert((front + a).skip(front.len() as int) =~= a);
    assert((front + b).skip(front.len() as int) =~= b);
    if derefs(p) {
        let f = if has_suffix(p, a) {
            p.take(p.len() - a.len())
        } else {
            p.take(p.len() - b.len())
        };
        let one = f + a;
        if has_suffix(p, a) {
            assert(p =~= f + a);
        } else {
            assert(p =~= f + b);
        }
        assert(p == one || p == f + b);
    }
}

proof fn lemma_erase_shift(s: Name, k: int, i: int, depth: nat, front: Name, out: Name)
    requires
        0 <= k <= s.len(),
        0 <= i <= s.len() - k,
        depth == 0 || i > 0,
    ensures
        erased_from(s, k + i, depth, front + out) == front + erased_from(s.skip(k), i, depth, out),
    decreases s.len() - k - i,
{
    let t = s.skip(k);
    if i < t.len() {
        assert(t[i] == s[k + i]);
        if t[i] == '<' {
            lemma_erase_shift(s, k, i + 1, depth + 1, front, out);
        } else if depth == 0 {
            lemma_erase_shift(s, k, i + 1, 0, front, out.push(t[i]));
            assert(front + out.push(t[i]) =~= (front + out).push(s[k + i]));
        } else {
            assert(t[i - 1] == s[k + i - 1]);
            if t[i] == '>' && t[i - 1] != '-' {
                lemma_erase_shift(s, k, i + 1, (depth - 1) as nat, front, out);
            } else {
                lemma_erase_shift(s, k, i + 1, depth, front, out);
            }
        }
    }
}

/// Type arguments are erased wherever they stand in a type: what comes before
/// them stays, and what follows them is erased in turn.
pub proof fn arguments_are_erased_everywhere(path: Name, a: Name, rest: Name)
    requires
        !path.contains('<'),
        is_argument_list(a),
    ensures
        erased(path) == path,
        erased(path + seq!['<'] + a + seq!['>'] + rest) == path + erased(rest),
{
    assert(path.take(path.len() as int) =~= path);
    lemma_path_kept(path, path, path.len() as int);
    let s = path + seq!['<'] + a + seq!['>'] + rest;
    let n = path.len() as int;
    assert(s.take(n) =~= path);
    lemma_path_kept(s, path, n);
    lemma_arguments_skipped(s, path, a, rest, a.len() as int);
    let last = n + 1 + a.len();
    assert(s[last] == '>');
    assert(s[last - 1] == if a.len() > 0 {
        a.last()
    } else {
        '<'
    });
    assert(erased_from(s, last, 1, path) == erased_from(s, last + 1, 0, path));
    assert(s.skip(last + 1) =~= rest);
    lemma_erase_shift(s, last + 1, 0, 0, path, Seq::empty());
    assert(path + Seq::<char>::empty() =~= path);
}

proof fn lemma_arguments_skipped(s: Name, path: Name, a: Name, rest: Name, n: int)
    requires
        s == path + seq!['<'] + a + seq!['>'] + rest,
        0 <= n <= a.len(),
        is_argument_list(a),
    ensures
        erased_from(s, path.len() as int, 0, path) == erased_from(
            s,
            path.len() + 1 + n,
            (1 + depth_after(a, n)) as nat,
            path,
        ),
    decreases n,
{
    let k = path.len() as int;
    assert(s[k] == '<');
    if n > 0 {
        lemma_arguments_skipped(s, path, a, rest, n - 1);
        assert(depth_after(a, n - 1) >= 0);
        assert(depth_after(a, n) >= 0);
        assert(s[k + n] == a[n - 1]);
        assert(s[k + n - 1] == if n > 1 {
            a[n - 2]
        } else {
            '<'
        });
    }
}

}
