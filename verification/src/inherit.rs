//! What the callers of a function may hold.
//!
//! A guard held across a call is invisible inside the callee. Every known call
//! passes what is held at the call, and what the caller itself inherits, on to
//! the callee; the passing is repeated until nothing changes.

use vstd::prelude::*;

use crate::namemap::NameMap;
use crate::solver::note;
use crate::text::{clone_names, has_name, names, Name};

verus! {

/// A call that is known to reach `target`, made by `source` with the locks
/// `held`.
pub struct Link {
    pub source: String,
    pub target: String,
    pub held: Vec<String>,
}

/// The mathematical value of a [`Link`].
pub struct LinkV {
    pub source: Name,
    pub target: Name,
    pub held: Seq<Name>,
}

impl View for Link {
    type V = LinkV;

    open spec fn view(&self) -> LinkV {
        LinkV { source: self.source@, target: self.target@, held: names(self.held@) }
    }
}

pub open spec fn link_views(v: Seq<Link>) -> Seq<LinkV> {
    v.map_values(|x: Link| x@)
}

/// For each function the classes that its callers may hold.
pub type Entry = Map<Name, Seq<Name>>;

/// The classes that the callers of `f` may hold.
pub open spec fn may_of(m: Entry, f: Name) -> Seq<Name> {
    if m.contains_key(f) {
        m[f]
    } else {
        Seq::empty()
    }
}

/// `q` followed by those of `more` that are new.
pub open spec fn add_new(q: Seq<Name>, more: Seq<Name>) -> Seq<Name>
    decreases more.len(),
{
    if more.len() == 0 {
        q
    } else {
        note(add_new(q, more.drop_last()), more.last())
    }
}

/// Adds the classes `more` to those that the callers of `f` may hold.
pub open spec fn merged(m: Entry, f: Name, more: Seq<Name>) -> Entry {
    let q = add_new(may_of(m, f), more);
    if q == may_of(m, f) {
        m
    } else {
        m.insert(f, q)
    }
}

/// What a call hands to its callee: the locks held there, and those that the
/// caller inherits.
pub open spec fn handed(m: Entry, l: LinkV) -> Seq<Name> {
    l.held + may_of(m, l.source)
}

/// One round over all calls.
pub open spec fn round(m: Entry, links: Seq<LinkV>) -> Entry
    decreases links.len(),
{
    if links.len() == 0 {
        m
    } else {
        let prior = round(m, links.drop_last());
        merged(prior, links.last().target, handed(prior, links.last()))
    }
}

/// The state after `k` rounds.
pub open spec fn rounds(links: Seq<LinkV>, k: nat) -> Entry
    decreases k,
{
    if k == 0 {
        Map::empty()
    } else {
        round(rounds(links, (k - 1) as nat), links)
    }
}

/// The state that no further round changes.
pub open spec fn entry_may(links: Seq<LinkV>) -> Entry {
    rounds(links, choose|k: nat| round(#[trigger] rounds(links, k), links) == rounds(links, k))
}

/// All classes held at some call.
pub open spec fn held_at_calls(links: Seq<LinkV>) -> Seq<Name>
    decreases links.len(),
{
    if links.len() == 0 {
        Seq::empty()
    } else {
        held_at_calls(links.drop_last()) + links.last().held
    }
}

pub proof fn lemma_push_contains(q: Seq<Name>, x: Name, y: Name)
    ensures
        q.push(x).contains(y) == (q.contains(y) || x == y),
{
    if q.contains(y) {
        let i = choose|i: int| 0 <= i < q.len() && q[i] == y;
        assert(q.push(x)[i] == y);
    }
    assert(q.push(x)[q.len() as int] == x);
}

pub proof fn lemma_concat_contains(a: Seq<Name>, b: Seq<Name>, x: Name)
    ensures
        (a + b).contains(x) == (a.contains(x) || b.contains(x)),
{
    if a.contains(x) {
        let i = choose|i: int| 0 <= i < a.len() && a[i] == x;
        assert((a + b)[i] == x);
    }
    if b.contains(x) {
        let i = choose|i: int| 0 <= i < b.len() && b[i] == x;
        assert((a + b)[a.len() + i] == x);
    }
    if (a + b).contains(x) {
        let i = choose|i: int| 0 <= i < (a + b).len() && (a + b)[i] == x;
        if i < a.len() {
            assert(a[i] == x);
        } else {
            assert(b[i - a.len()] == x);
        }
    }
}

/// Adding keeps what was there, adds nothing else, and repeats nothing.
pub proof fn lemma_add_new(q: Seq<Name>, more: Seq<Name>)
    ensures
        add_new(q, more).len() >= q.len(),
        add_new(q, more).take(q.len() as int) == q,
        forall|x: Name| #[trigger]
            add_new(q, more).contains(x) <==> q.contains(x) || more.contains(x),
        q.no_duplicates() ==> add_new(q, more).no_duplicates(),
    decreases more.len(),
{
    if more.len() == 0 {
        assert(q.take(q.len() as int) =~= q);
    } else {
        let r = more.drop_last();
        let p = add_new(q, r);
        lemma_add_new(q, r);
        assert(more =~= r.push(more.last()));
        assert forall|x: Name| #[trigger] add_new(q, more).contains(x) <==> q.contains(x)
            || more.contains(x) by {
            lemma_push_contains(r, more.last(), x);
            lemma_push_contains(p, more.last(), x);
            assert(p.contains(x) <==> q.contains(x) || r.contains(x));
        }
        assert(add_new(q, more).take(q.len() as int) =~= p.take(q.len() as int));
    }
}

/// Every function's set in `a` is a prefix of its set in `b`.
pub open spec fn grows(a: Entry, b: Entry) -> bool {
    forall|f: Name|
        may_of(a, f).len() <= (#[trigger] may_of(b, f)).len() && may_of(b, f).take(
            may_of(a, f).len() as int,
        ) == may_of(a, f)
}

proof fn lemma_grows_refl(a: Entry)
    ensures
        grows(a, a),
{
    assert forall|f: Name|
        may_of(a, f).len() <= (#[trigger] may_of(a, f)).len() && may_of(a, f).take(
            may_of(a, f).len() as int,
        ) == may_of(a, f) by {
        assert(may_of(a, f).take(may_of(a, f).len() as int) =~= may_of(a, f));
    }
}

proof fn lemma_grows_trans(a: Entry, b: Entry, c: Entry)
    requires
        grows(a, b),
        grows(b, c),
    ensures
        grows(a, c),
{
    assert forall|f: Name|
        may_of(a, f).len() <= (#[trigger] may_of(c, f)).len() && may_of(c, f).take(
            may_of(a, f).len() as int,
        ) == may_of(a, f) by {
        let n = may_of(a, f).len() as int;
        assert(may_of(b, f).len() >= n);
        assert(may_of(c, f).take(n) =~= may_of(c, f).take(may_of(b, f).len() as int).take(n));
    }
}

proof fn lemma_merged(m: Entry, f: Name, more: Seq<Name>)
    ensures
        grows(m, merged(m, f, more)),
        may_of(merged(m, f, more), f) == add_new(may_of(m, f), more),
        forall|g: Name| g != f ==> #[trigger] may_of(merged(m, f, more), g) == may_of(m, g),
        merged(m, f, more) != m ==> may_of(merged(m, f, more), f).len() > may_of(m, f).len(),
{
    let m2 = merged(m, f, more);
    let q = may_of(m, f);
    lemma_add_new(q, more);
    assert forall|g: Name|
        may_of(m, g).len() <= (#[trigger] may_of(m2, g)).len() && may_of(m2, g).take(
            may_of(m, g).len() as int,
        ) == may_of(m, g) by {
        if g != f {
            assert(may_of(m, g).take(may_of(m, g).len() as int) =~= may_of(m, g));
        }
    }
    if add_new(q, more).len() == q.len() {
        assert(add_new(q, more) =~= add_new(q, more).take(q.len() as int));
    }
}

proof fn lemma_round_grows(m: Entry, links: Seq<LinkV>, n: int)
    requires
        0 <= n <= links.len(),
    ensures
        grows(m, round(m, links.take(n))),
        grows(round(m, links.take(n)), round(m, links)),
    decreases links.len(), n,
{
    lemma_grows_refl(m);
    if links.len() == 0 {
        assert(links.take(n) =~= links);
    } else {
        let prior = round(m, links.drop_last());
        lemma_merged(prior, links.last().target, handed(prior, links.last()));
        let last = links.drop_last();
        if n == links.len() {
            assert(links.take(n) =~= links);
            lemma_round_grows(m, last, last.len() as int);
            assert(last.take(last.len() as int) =~= last);
            lemma_grows_trans(m, prior, round(m, links));
            lemma_grows_refl(round(m, links));
        } else {
            lemma_round_grows(m, last, n);
            assert(last.take(n) =~= links.take(n));
            lemma_grows_trans(round(m, links.take(n)), prior, round(m, links));
        }
    }
}

/// Every class comes from a call, and no set repeats a class.
pub open spec fn drawn_from(m: Entry, pool: Seq<Name>) -> bool {
    forall|f: Name|
        (#[trigger] may_of(m, f)).no_duplicates() && forall|x: Name|
            may_of(m, f).contains(x) ==> pool.contains(x)
}

proof fn lemma_merged_drawn(m: Entry, f: Name, more: Seq<Name>, pool: Seq<Name>)
    requires
        drawn_from(m, pool),
        forall|x: Name| more.contains(x) ==> pool.contains(x),
    ensures
        drawn_from(merged(m, f, more), pool),
{
    let m2 = merged(m, f, more);
    lemma_merged(m, f, more);
    lemma_add_new(may_of(m, f), more);
    assert forall|g: Name|
        (#[trigger] may_of(m2, g)).no_duplicates() && forall|x: Name|
            may_of(m2, g).contains(x) ==> pool.contains(x) by {
        assert(may_of(m, g).no_duplicates());
        if g == f {
            assert forall|x: Name| may_of(m2, g).contains(x) implies pool.contains(x) by {
                assert(add_new(may_of(m, f), more).contains(x));
            }
        } else {
            assert(may_of(m2, g) == may_of(m, g));
        }
    }
}

proof fn lemma_held_at_calls(links: Seq<LinkV>, i: int, x: Name)
    requires
        0 <= i < links.len(),
        links[i].held.contains(x),
    ensures
        held_at_calls(links).contains(x),
    decreases links.len(),
{
    lemma_concat_contains(held_at_calls(links.drop_last()), links.last().held, x);
    if i < links.len() - 1 {
        lemma_held_at_calls(links.drop_last(), i, x);
    }
}

proof fn lemma_round_drawn(m: Entry, links: Seq<LinkV>, n: int)
    requires
        0 <= n <= links.len(),
        drawn_from(m, held_at_calls(links)),
    ensures
        drawn_from(round(m, links.take(n)), held_at_calls(links)),
    decreases n,
{
    let pool = held_at_calls(links);
    if n > 0 {
        lemma_round_drawn(m, links, n - 1);
        assert(links.take(n).drop_last() =~= links.take(n - 1));
        let prior = round(m, links.take(n - 1));
        let l = links[n - 1];
        assert(links.take(n).last() == l);
        assert forall|x: Name| handed(prior, l).contains(x) implies pool.contains(x) by {
            lemma_concat_contains(l.held, may_of(prior, l.source), x);
            if l.held.contains(x) {
                lemma_held_at_calls(links, n - 1, x);
            }
        }
        lemma_merged_drawn(prior, l.target, handed(prior, l), pool);
    }
}

proof fn lemma_drawn_len(q: Seq<Name>, pool: Seq<Name>)
    requires
        q.no_duplicates(),
        forall|x: Name| q.contains(x) ==> pool.contains(x),
    ensures
        q.len() <= pool.len(),
{
    q.unique_seq_to_set();
    pool.lemma_cardinality_of_set();
    assert forall|x: Name| q.to_set().contains(x) implies pool.to_set().contains(x) by {
        assert(q.contains(x));
    }
    vstd::set_lib::lemma_len_subset(q.to_set(), pool.to_set());
}

/// How many classes the targets of the calls could still gain.
pub open spec fn room(links: Seq<LinkV>, m: Entry, size: nat) -> int
    decreases links.len(),
{
    if links.len() == 0 {
        0
    } else {
        room(links.drop_last(), m, size) + size - may_of(m, links.last().target).len()
    }
}

proof fn lemma_room(links: Seq<LinkV>, a: Entry, b: Entry, size: nat)
    requires
        grows(a, b),
    ensures
        room(links, b, size) <= room(links, a, size),
        (exists|i: int|
            0 <= i < links.len() && may_of(a, (#[trigger] links[i]).target).len() < may_of(
                b,
                links[i].target,
            ).len()) ==> room(links, b, size) < room(links, a, size),
    decreases links.len(),
{
    if links.len() > 0 {
        let r = links.drop_last();
        lemma_room(r, a, b, size);
        assert(may_of(a, links.last().target).len() <= may_of(b, links.last().target).len());
        if exists|i: int|
            0 <= i < links.len() && may_of(a, (#[trigger] links[i]).target).len() < may_of(
                b,
                links[i].target,
            ).len() {
            let i = choose|i: int|
                0 <= i < links.len() && may_of(a, (#[trigger] links[i]).target).len() < may_of(
                    b,
                    links[i].target,
                ).len();
            if i < r.len() {
                assert(r[i] == links[i]);
            }
        }
    }
}

proof fn lemma_room_bound(links: Seq<LinkV>, m: Entry, pool: Seq<Name>)
    requires
        drawn_from(m, pool),
    ensures
        room(links, m, pool.len()) >= 0,
    decreases links.len(),
{
    if links.len() > 0 {
        lemma_room_bound(links.drop_last(), m, pool);
        let q = may_of(m, links.last().target);
        assert(q.no_duplicates());
        lemma_drawn_len(q, pool);
    }
}

/// A round that changes anything gives some target a class more.
proof fn lemma_round_gains(m: Entry, links: Seq<LinkV>, n: int)
    requires
        0 <= n <= links.len(),
        round(m, links.take(n)) != m,
    ensures
        exists|i: int|
            0 <= i < links.len() && may_of(m, (#[trigger] links[i]).target).len() < may_of(
                round(m, links),
                links[i].target,
            ).len(),
    decreases n,
{
    if n == 0 {
        assert(links.take(0) =~= Seq::empty());
    } else {
        let prior = round(m, links.take(n - 1));
        assert(links.take(n).drop_last() =~= links.take(n - 1));
        let l = links[n - 1];
        assert(links.take(n).last() == l);
        if prior != m {
            lemma_round_gains(m, links, n - 1);
        } else {
            lemma_merged(m, l.target, handed(m, l));
            lemma_round_grows(m, links, n);
            assert(may_of(round(m, links), l.target).len() >= may_of(
                round(m, links.take(n)),
                l.target,
            ).len());
            assert(may_of(m, links[n - 1].target).len() < may_of(
                round(m, links),
                links[n - 1].target,
            ).len());
        }
    }
}

proof fn lemma_rounds_drawn(links: Seq<LinkV>, k: nat)
    ensures
        drawn_from(rounds(links, k), held_at_calls(links)),
    decreases k,
{
    if k > 0 {
        lemma_rounds_drawn(links, (k - 1) as nat);
        lemma_round_drawn(rounds(links, (k - 1) as nat), links, links.len() as int);
        assert(links.take(links.len() as int) =~= links);
    }
}

/// A round either changes nothing or leaves less room.
proof fn lemma_round_progress(links: Seq<LinkV>, k: nat)
    ensures
        room(links, rounds(links, k), held_at_calls(links).len()) >= 0,
        rounds(links, k + 1) != rounds(links, k) ==> room(
            links,
            rounds(links, k + 1),
            held_at_calls(links).len(),
        ) < room(links, rounds(links, k), held_at_calls(links).len()),
{
    let m = rounds(links, k);
    let pool = held_at_calls(links);
    lemma_rounds_drawn(links, k);
    lemma_room_bound(links, m, pool);
    assert(rounds(links, k + 1) == round(m, links));
    assert(links.take(links.len() as int) =~= links);
    lemma_round_grows(m, links, links.len() as int);
    if round(m, links) != m {
        lemma_round_gains(m, links, links.len() as int);
        lemma_room(links, m, round(m, links), pool.len());
    }
}

proof fn lemma_rounds_settle(links: Seq<LinkV>, k: nat) -> (j: nat)
    ensures
        round(rounds(links, j), links) == rounds(links, j),
    decreases room(links, rounds(links, k), held_at_calls(links).len()),
{
    lemma_round_progress(links, k);
    if rounds(links, k + 1) == rounds(links, k) {
        k
    } else {
        lemma_round_progress(links, k + 1);
        lemma_rounds_settle(links, k + 1)
    }
}

proof fn lemma_rounds_stay(links: Seq<LinkV>, k: nat, j: nat)
    requires
        round(rounds(links, k), links) == rounds(links, k),
        k <= j,
    ensures
        rounds(links, j) == rounds(links, k),
    decreases j - k,
{
    if k < j {
        lemma_rounds_stay(links, k, (j - 1) as nat);
    }
}

/// Whichever round settles it, the state is the same.
proof fn lemma_entry_may(links: Seq<LinkV>, k: nat)
    requires
        round(rounds(links, k), links) == rounds(links, k),
    ensures
        entry_may(links) == rounds(links, k),
{
    let j = choose|j: nat| round(#[trigger] rounds(links, j), links) == rounds(links, j);
    if j <= k {
        lemma_rounds_stay(links, j, k);
    } else {
        lemma_rounds_stay(links, k, j);
    }
}

/// The calls `chain`, each made by the function that the one before reached,
/// lead to `f`.
pub open spec fn is_chain(links: Seq<LinkV>, chain: Seq<int>, f: Name) -> bool {
    &&& chain.len() > 0
    &&& forall|i: int| 0 <= i < chain.len() ==> 0 <= #[trigger] chain[i] < links.len()
    &&& forall|i: int|
        0 <= i < chain.len() - 1 ==> links[#[trigger] chain[i]].target == links[chain[i
            + 1]].source
    &&& links[chain.last()].target == f
}

/// The class `x` is held at the first of a chain of calls that leads to `f`.
pub open spec fn carried(links: Seq<LinkV>, f: Name, x: Name) -> bool {
    exists|chain: Seq<int>|
        is_chain(links, chain, f) && links[#[trigger] chain[0]].held.contains(x)
}

proof fn lemma_carried_step(links: Seq<LinkV>, i: int, x: Name)
    requires
        0 <= i < links.len(),
        carried(links, links[i].source, x),
    ensures
        carried(links, links[i].target, x),
{
    let chain = choose|chain: Seq<int>|
        is_chain(links, chain, links[i].source) && links[#[trigger] chain[0]].held.contains(x);
    let c2 = chain.push(i);
    assert(c2[0] == chain[0]);
    assert(is_chain(links, c2, links[i].target)) by {
        assert forall|k: int| 0 <= k < c2.len() - 1 implies links[#[trigger] c2[k]].target
            == links[c2[k + 1]].source by {
            if k < chain.len() - 1 {
                assert(c2[k] == chain[k] && c2[k + 1] == chain[k + 1]);
            }
        }
    }
}

proof fn lemma_round_carried(m: Entry, links: Seq<LinkV>, n: int)
    requires
        0 <= n <= links.len(),
        forall|f: Name, x: Name| #[trigger] may_of(m, f).contains(x) ==> carried(links, f, x),
    ensures
        forall|f: Name, x: Name| #[trigger]
            may_of(round(m, links.take(n)), f).contains(x) ==> carried(links, f, x),
    decreases n,
{
    if n > 0 {
        lemma_round_carried(m, links, n - 1);
        assert(links.take(n).drop_last() =~= links.take(n - 1));
        let prior = round(m, links.take(n - 1));
        let l = links[n - 1];
        assert(links.take(n).last() == l);
        let more = handed(prior, l);
        lemma_merged(prior, l.target, more);
        lemma_add_new(may_of(prior, l.target), more);
        let m2 = round(m, links.take(n));
        assert forall|f: Name, x: Name| #[trigger] may_of(m2, f).contains(x) implies carried(
            links,
            f,
            x,
        ) by {
            if f == l.target && !may_of(prior, f).contains(x) {
                assert(more.contains(x));
                lemma_concat_contains(l.held, may_of(prior, l.source), x);
                if l.held.contains(x) {
                    let chain = seq![n - 1];
                    assert(chain[0] == n - 1);
                    assert(is_chain(links, chain, f));
                } else {
                    lemma_carried_step(links, n - 1, x);
                }
            } else if f != l.target {
                assert(may_of(m2, f) == may_of(prior, f));
            }
        }
    }
}

proof fn lemma_rounds_carried(links: Seq<LinkV>, k: nat)
    ensures
        forall|f: Name, x: Name| #[trigger]
            may_of(rounds(links, k), f).contains(x) ==> carried(links, f, x),
    decreases k,
{
    if k > 0 {
        lemma_rounds_carried(links, (k - 1) as nat);
        lemma_round_carried(rounds(links, (k - 1) as nat), links, links.len() as int);
        assert(links.take(links.len() as int) =~= links);
    }
}

/// In a settled state every call has handed everything on.
proof fn lemma_settled_closed(m: Entry, links: Seq<LinkV>, i: int, x: Name)
    requires
        round(m, links) == m,
        0 <= i < links.len(),
        handed(m, links[i]).contains(x),
    ensures
        may_of(m, links[i].target).contains(x),
{
    let prior = round(m, links.take(i));
    if prior != m {
        lemma_round_gains(m, links, i);
    }
    assert(links.take(i + 1).drop_last() =~= links.take(i));
    assert(links.take(i + 1).last() == links[i]);
    let next = round(m, links.take(i + 1));
    if next != m {
        lemma_round_gains(m, links, i + 1);
    }
    lemma_merged(m, links[i].target, handed(m, links[i]));
    lemma_add_new(may_of(m, links[i].target), handed(m, links[i]));
    assert(add_new(may_of(m, links[i].target), handed(m, links[i])).contains(x));
}

proof fn lemma_chain_carries(m: Entry, links: Seq<LinkV>, chain: Seq<int>, f: Name, x: Name)
    requires
        round(m, links) == m,
        is_chain(links, chain, f),
        links[chain[0]].held.contains(x),
    ensures
        may_of(m, f).contains(x),
    decreases chain.len(),
{
    let l = links[chain.last()];
    assert(0 <= chain[chain.len() - 1] < links.len());
    if chain.len() == 1 {
        lemma_concat_contains(l.held, may_of(m, l.source), x);
        lemma_settled_closed(m, links, chain.last(), x);
    } else {
        let c = chain.drop_last();
        assert(is_chain(links, c, l.source)) by {
            assert forall|k: int| 0 <= k < c.len() - 1 implies links[#[trigger] c[k]].target
                == links[c[k + 1]].source by {
                assert(c[k] == chain[k] && c[k + 1] == chain[k + 1]);
            }
            let k = chain.len() - 2;
            assert(links[chain[k]].target == links[chain[k + 1]].source);
        }
        lemma_chain_carries(m, links, c, l.source, x);
        lemma_concat_contains(l.held, may_of(m, l.source), x);
        lemma_settled_closed(m, links, chain.last(), x);
    }
}

/// A function inherits a class exactly if the class is held at the first of a
/// chain of calls that leads to the function.
pub proof fn inherited_iff_carried(links: Seq<LinkV>, f: Name, x: Name)
    ensures
        may_of(entry_may(links), f).contains(x) <==> carried(links, f, x),
{
    let k = lemma_rounds_settle(links, 0);
    lemma_entry_may(links, k);
    lemma_rounds_carried(links, k);
    if carried(links, f, x) {
        let chain = choose|chain: Seq<int>|
            is_chain(links, chain, f) && links[#[trigger] chain[0]].held.contains(x);
        lemma_chain_carries(rounds(links, k), links, chain, f, x);
    }
}

/// A function inherits each class once.
pub proof fn inherited_once(links: Seq<LinkV>, f: Name)
    ensures
        may_of(entry_may(links), f).no_duplicates(),
{
    let k = lemma_rounds_settle(links, 0);
    lemma_entry_may(links, k);
    lemma_rounds_drawn(links, k);
}

/// The sets that a map holds.
pub open spec fn sets(m: Map<Name, Vec<String>>) -> Entry {
    m.map_values(|v: Vec<String>| names(v@))
}

/// A copy of the classes that the callers of `f` may hold.
pub fn inherited(m: &NameMap<Vec<String>>, f: &str) -> (r: Vec<String>)
    requires
        m.wf(),
    ensures
        names(r@) == may_of(sets(m@), f@),
{
    match m.get(f) {
        Some(v) => clone_names(v),
        None => {
            let r: Vec<String> = Vec::new();
            assert(names(r@) =~= Seq::empty());
            r
        },
    }
}

/// Appends those of `more` that are new; the result says whether there were
/// any.
pub fn append_new(q: &mut Vec<String>, more: &Vec<String>) -> (changed: bool)
    ensures
        names(final(q)@) == add_new(names(old(q)@), names(more@)),
        changed == (names(final(q)@) != names(old(q)@)),
{
    let ghost start = names(q@);
    let ghost m = names(more@);
    let n: usize = q.len();
    let mut i: usize = 0;
    assert(m.take(0) =~= Seq::empty());
    while i < more.len()
        invariant
            m == names(more@),
            i <= more@.len(),
            names(q@) == add_new(start, m.take(i as int)),
        decreases more@.len() - i,
    {
        assert(m.take(i + 1).drop_last() =~= m.take(i as int));
        assert(m[i as int] == more@[i as int]@);
        if !has_name(q, more[i].as_str()) {
            let ghost before = names(q@);
            q.push(more[i].clone());
            assert(names(q@) =~= before.push(m[i as int]));
        }
        i = i + 1;
    }
    assert(m.take(i as int) =~= m);
    proof {
        lemma_add_new(start, m);
        if q@.len() == start.len() {
            assert(names(q@) =~= names(q@).take(start.len() as int));
        }
    }
    q.len() != n
}

/// Adds the classes `more` to those that the callers of `target` may hold; the
/// result says whether any was new.
fn merge(m: &mut NameMap<Vec<String>>, target: &str, more: &Vec<String>) -> (changed: bool)
    requires
        old(m).wf(),
    ensures
        final(m).wf(),
        sets(final(m)@) == merged(sets(old(m)@), target@, names(more@)),
        changed == (sets(final(m)@) != sets(old(m)@)),
{
    let ghost before = sets(m@);
    let mut q = inherited(m, target);
    let changed = append_new(&mut q, more);
    if changed {
        let ghost prior = m@;
        let _ = m.insert(target.to_owned(), q);
        assert(sets(m@) =~= before.insert(target@, names(q@)));
        proof {
            lemma_merged(before, target@, names(more@));
        }
    }
    changed
}

/// For each function the classes that its callers may hold.
pub fn inheritance(links: &Vec<Link>) -> (r: NameMap<Vec<String>>)
    ensures
        r.wf(),
        sets(r@) == entry_may(link_views(links@)),
{
    let ghost ls = link_views(links@);
    let mut m: NameMap<Vec<String>> = NameMap::new();
    let ghost mut k: nat = 0;
    assert(sets(m@) =~= Map::empty());
    loop
        invariant
            ls == link_views(links@),
            m.wf(),
            sets(m@) == rounds(ls, k),
        decreases room(ls, rounds(ls, k), held_at_calls(ls).len()),
    {
        let ghost start = sets(m@);
        let mut changed: bool = false;
        let mut i: usize = 0;
        assert(ls.take(0) =~= Seq::empty());
        while i < links.len()
            invariant
                ls == link_views(links@),
                i <= links@.len(),
                m.wf(),
                sets(m@) == round(start, ls.take(i as int)),
                !changed ==> sets(m@) == start,
                changed ==> exists|n: int|
                    0 <= n <= i && #[trigger] round(start, ls.take(n)) != start,
            decreases links@.len() - i,
        {
            let l = &links[i];
            let ghost prior = sets(m@);
            assert(ls[i as int] == l@);
            let mut more = clone_names(&l.held);
            let from = inherited(&m, l.source.as_str());
            append_all(&mut more, &from);
            assert(ls.take(i + 1).drop_last() =~= ls.take(i as int));
            let c = merge(&mut m, l.target.as_str(), &more);
            if c {
                if !changed {
                    assert(round(start, ls.take(i + 1)) != start);
                }
                changed = true;
            }
            i = i + 1;
        }
        assert(ls.take(i as int) =~= ls);
        proof {
            lemma_round_progress(ls, k);
            lemma_round_progress(ls, k + 1);
            assert(rounds(ls, k + 1) == round(rounds(ls, k), ls));
        }
        if !changed {
            proof {
                lemma_entry_may(ls, k);
            }
            return m;
        }
        proof {
            let n = choose|n: int| 0 <= n <= i && #[trigger] round(start, ls.take(n)) != start;
            lemma_round_gains(start, ls, n);
            k = k + 1;
        }
    }
}

/// Appends the strings `more`.
pub fn append_all(q: &mut Vec<String>, more: &Vec<String>)
    ensures
        names(final(q)@) == names(old(q)@) + names(more@),
{
    let ghost start = names(q@);
    let mut i: usize = 0;
    assert(names(q@) =~= start + names(more@).take(0));
    while i < more.len()
        invariant
            i <= more@.len(),
            names(q@) == start + names(more@).take(i as int),
        decreases more@.len() - i,
    {
        let ghost before = names(q@);
        q.push(more[i].clone());
        assert(names(q@) =~= before.push(names(more@)[i as int]));
        assert(names(q@) =~= start + names(more@).take(i + 1));
        i = i + 1;
    }
    assert(names(more@).take(i as int) =~= names(more@));
}

}
