//! What a document of events says, and what its functions inherit from their
//! callers.
//!
//! The laws speak of the entries of the document: a call hands what is held there
//! to its callee, and a call of a parameter hands it to every callable that some
//! caller passes there.

use vstd::prelude::*;

use crate::events::{
    all_texts, call_of, closure_arg_of, counts_in, critical_section, effective, entries, event_of,
    events_hold_what_callers_hold, inheritance_of, lemma_without, opaque_reason, opaque_under_lock,
    param_call_of, passed, program_of, records_of, resolved, unknown_callee, unresolved_param,
    widened, ClosureArgV, ParamCallV, RecordsV,
};
use crate::inherit::{carried, inherited_iff_carried, is_chain, may_of, Entry, LinkV};
use crate::json::{field, MemberV, ValueV};
use crate::model::{EventV, ProgramV};
use crate::text::Name;
use crate::verdicts::{lemma_mentioned, occurs, occurs_at};

verus! {

/// The parameter call number `i` runs the callable that is passed by the closure
/// argument number `j`.
pub open spec fn binds(r: RecordsV, i: int, j: int) -> bool {
    &&& 0 <= i < r.params.len()
    &&& 0 <= j < r.args.len()
    &&& r.args[j].callee == r.params[i].function
    &&& r.args[j].param == r.params[i].param
}

/// The call `l` is recorded: by itself, or as the call of a parameter together
/// with a callable that is passed there.
pub open spec fn is_recorded(r: RecordsV, l: LinkV) -> bool {
    ||| exists|i: int| 0 <= i < r.calls.len() && #[trigger] r.calls[i] == l
    ||| exists|i: int, j: int| #[trigger]
        binds(r, i, j) && l == (LinkV {
            source: r.params[i].function,
            target: r.args[j].closure,
            held: r.params[i].held,
        })
}

/// Within `n` calls before the last, the class `x` can be held when `f` is
/// entered.
pub open spec fn comes_with(r: RecordsV, n: nat, f: Name, x: Name) -> bool
    decreases n,
{
    exists|l: LinkV| #[trigger]
        is_recorded(r, l) && l.target == f && (l.held.contains(x) || (n > 0 && comes_with(
            r,
            (n - 1) as nat,
            l.source,
            x,
        )))
}

/// The class `x` can be held when `f` is entered.
pub open spec fn is_inherited(r: RecordsV, f: Name, x: Name) -> bool {
    exists|n: nat| comes_with(r, n, f, x)
}

proof fn lemma_passed(p: ParamCallV, args: Seq<ClosureArgV>, c: Name)
    ensures
        passed(p, args).contains(c) <==> exists|j: int|
            0 <= j < args.len() && (#[trigger] args[j]).callee == p.function && args[j].param
                == p.param && args[j].closure == c,
    decreases args.len(),
{
    let q = passed(p, args);
    if args.len() > 0 {
        let r = args.drop_last();
        let a = args.last();
        lemma_passed(p, r, c);
        let before = passed(p, r);
        if q.contains(c) {
            let k = choose|k: int| 0 <= k < q.len() && q[k] == c;
            if k < before.len() {
                assert(before[k] == c);
                let j = choose|j: int|
                    0 <= j < r.len() && (#[trigger] r[j]).callee == p.function && r[j].param
                        == p.param && r[j].closure == c;
                assert(args[j] == r[j]);
            } else {
                assert(args[args.len() - 1] == a);
            }
        }
        if exists|j: int|
            0 <= j < args.len() && (#[trigger] args[j]).callee == p.function && args[j].param
                == p.param && args[j].closure == c {
            let j = choose|j: int|
                0 <= j < args.len() && (#[trigger] args[j]).callee == p.function && args[j].param
                    == p.param && args[j].closure == c;
            if j < r.len() {
                assert(r[j] == args[j]);
                let k = choose|k: int| 0 <= k < before.len() && before[k] == c;
                assert(q[k] == c);
            } else {
                assert(q[before.len() as int] == c);
            }
        }
    }
}

proof fn lemma_resolved(params: Seq<ParamCallV>, args: Seq<ClosureArgV>, l: LinkV)
    ensures
        resolved(params, args).contains(l) <==> exists|i: int|
            0 <= i < params.len() && passed(#[trigger] params[i], args).contains(l.target)
                && l.source == params[i].function && l.held == params[i].held,
    decreases params.len(),
{
    let all = resolved(params, args);
    if params.len() > 0 {
        let r = params.drop_last();
        let p = params.last();
        let before = resolved(r, args);
        let q = passed(p, args);
        let row = q.map_values(
            |c: Name| LinkV { source: p.function, target: c, held: p.held },
        );
        lemma_resolved(r, args, l);
        assert(all == before + row);
        if all.contains(l) {
            let k = choose|k: int| 0 <= k < all.len() && all[k] == l;
            if k < before.len() {
                assert(before[k] == l);
                let i = choose|i: int|
                    0 <= i < r.len() && passed(#[trigger] r[i], args).contains(l.target)
                        && l.source == r[i].function && l.held == r[i].held;
                assert(params[i] == r[i]);
            } else {
                assert(row[k - before.len()] == l);
                assert(q[k - before.len()] == l.target);
                assert(params[params.len() - 1] == p);
            }
        }
        if exists|i: int|
            0 <= i < params.len() && passed(#[trigger] params[i], args).contains(l.target)
                && l.source == params[i].function && l.held == params[i].held {
            let i = choose|i: int|
                0 <= i < params.len() && passed(#[trigger] params[i], args).contains(l.target)
                    && l.source == params[i].function && l.held == params[i].held;
            if i < r.len() {
                assert(r[i] == params[i]);
                let k = choose|k: int| 0 <= k < before.len() && before[k] == l;
                assert(all[k] == l);
            } else {
                let k = choose|k: int| 0 <= k < q.len() && q[k] == l.target;
                assert(row[k] == l);
                assert(all[before.len() + k] == l);
            }
        }
    }
}

proof fn lemma_links(r: RecordsV, l: LinkV)
    ensures
        (r.calls + resolved(r.params, r.args)).contains(l) <==> is_recorded(r, l),
{
    let more = resolved(r.params, r.args);
    let all = r.calls + more;
    lemma_resolved(r.params, r.args, l);
    if all.contains(l) {
        let k = choose|k: int| 0 <= k < all.len() && all[k] == l;
        if k < r.calls.len() {
            assert(r.calls[k] == l);
        } else {
            assert(more[k - r.calls.len()] == l);
            let i = choose|i: int|
                0 <= i < r.params.len() && passed(#[trigger] r.params[i], r.args).contains(
                    l.target,
                ) && l.source == r.params[i].function && l.held == r.params[i].held;
            lemma_passed(r.params[i], r.args, l.target);
            let j = choose|j: int|
                0 <= j < r.args.len() && (#[trigger] r.args[j]).callee == r.params[i].function
                    && r.args[j].param == r.params[i].param && r.args[j].closure == l.target;
            assert(binds(r, i, j));
        }
    }
    if is_recorded(r, l) {
        if exists|i: int| 0 <= i < r.calls.len() && #[trigger] r.calls[i] == l {
            let i = choose|i: int| 0 <= i < r.calls.len() && #[trigger] r.calls[i] == l;
            assert(all[i] == l);
        } else {
            let (i, j) = choose|i: int, j: int| #[trigger]
                binds(r, i, j) && l == (LinkV {
                    source: r.params[i].function,
                    target: r.args[j].closure,
                    held: r.params[i].held,
                });
            lemma_passed(r.params[i], r.args, l.target);
            assert(r.args[j].closure == l.target);
            assert(more.contains(l));
            let k = choose|k: int| 0 <= k < more.len() && more[k] == l;
            assert(all[r.calls.len() + k] == l);
        }
    }
}

proof fn lemma_chain_comes(r: RecordsV, chain: Seq<int>, f: Name, x: Name)
    requires
        is_chain(r.calls + resolved(r.params, r.args), chain, f),
        (r.calls + resolved(r.params, r.args))[chain[0]].held.contains(x),
    ensures
        comes_with(r, (chain.len() - 1) as nat, f, x),
    decreases chain.len(),
{
    let links = r.calls + resolved(r.params, r.args);
    let l = links[chain.last()];
    assert(links.contains(l));
    lemma_links(r, l);
    if chain.len() > 1 {
        let c = chain.drop_last();
        assert(is_chain(links, c, l.source)) by {
            assert forall|k: int| 0 <= k < c.len() - 1 implies links[#[trigger] c[k]].target
                == links[c[k + 1]].source by {
                assert(c[k] == chain[k] && c[k + 1] == chain[k + 1]);
            }
            let k = chain.len() - 2;
            assert(links[chain[k]].target == links[chain[k + 1]].source);
        }
        lemma_chain_comes(r, c, l.source, x);
    }
}

proof fn lemma_comes_carried(r: RecordsV, n: nat, f: Name, x: Name)
    requires
        comes_with(r, n, f, x),
    ensures
        carried(r.calls + resolved(r.params, r.args), f, x),
    decreases n,
{
    let links = r.calls + resolved(r.params, r.args);
    let l = choose|l: LinkV| #[trigger]
        is_recorded(r, l) && l.target == f && (l.held.contains(x) || (n > 0 && comes_with(
            r,
            (n - 1) as nat,
            l.source,
            x,
        )));
    lemma_links(r, l);
    let k = choose|k: int| 0 <= k < links.len() && links[k] == l;
    if l.held.contains(x) {
        let chain = seq![k];
        assert(is_chain(links, chain, f));
        assert(links[chain[0]].held.contains(x));
    } else {
        lemma_comes_carried(r, (n - 1) as nat, l.source, x);
        let c = choose|c: Seq<int>|
            is_chain(links, c, l.source) && links[#[trigger] c[0]].held.contains(x);
        let chain = c.push(k);
        assert(is_chain(links, chain, f)) by {
            assert forall|i: int| 0 <= i < chain.len() - 1 implies links[#[trigger] chain[i]].target
                == links[chain[i + 1]].source by {
                if i + 1 < c.len() {
                    assert(chain[i] == c[i] && chain[i + 1] == c[i + 1]);
                } else {
                    assert(chain[i] == c.last());
                }
            }
        }
        assert(chain[0] == c[0]);
        assert(links[chain[0]].held.contains(x));
    }
}

proof fn lemma_inherited(r: RecordsV, f: Name, x: Name)
    ensures
        is_inherited(r, f, x) <==> carried(r.calls + resolved(r.params, r.args), f, x),
        is_inherited(r, f, x) <==> may_of(inheritance_of(r), f).contains(x),
{
    let links = r.calls + resolved(r.params, r.args);
    inherited_iff_carried(links, f, x);
    if carried(links, f, x) {
        let chain = choose|chain: Seq<int>|
            is_chain(links, chain, f) && links[#[trigger] chain[0]].held.contains(x);
        lemma_chain_comes(r, chain, f, x);
    }
    if is_inherited(r, f, x) {
        let n = choose|n: nat| comes_with(r, n, f, x);
        lemma_comes_carried(r, n, f, x);
    }
}

/// An event holds what is recorded of it and what can be held when its function
/// is entered, and nothing else; only the critical section is left out where the
/// critical section is entered.
pub proof fn events_hold_what_is_inherited(
    top: Seq<MemberV>,
    r: RecordsV,
    p: ProgramV,
    i: int,
    x: Name,
)
    requires
        records_of(top) == Ok::<RecordsV, Name>(r),
        program_of(top) == Ok::<ProgramV, Name>(p),
        0 <= i < r.events.len(),
    ensures
        p.events.len() == r.events.len(),
        p.events[i].function == r.events[i].function,
        p.events[i].site == r.events[i].site,
        p.events[i].acquires == r.events[i].acquires,
        p.events[i].held.contains(x) <==> {
            &&& r.events[i].held.contains(x) || is_inherited(r, r.events[i].function, x)
            &&& !(r.events[i].acquires == "<critical-section>"@ && x == "<critical-section>"@)
        },
{
    events_hold_what_callers_hold(top, r, p, i, x);
    lemma_inherited(r, r.events[i].function, x);
}

/// Every call of a parameter runs every callable that is passed there, under what
/// is held at the call and what the calling function inherits.
pub proof fn callbacks_run_under_the_locks_of_their_callers(
    top: Seq<MemberV>,
    r: RecordsV,
    p: ProgramV,
    i: int,
    j: int,
    e: int,
    x: Name,
)
    requires
        records_of(top) == Ok::<RecordsV, Name>(r),
        program_of(top) == Ok::<ProgramV, Name>(p),
        0 <= i < r.params.len(),
        0 <= j < r.args.len(),
        r.args[j].callee == r.params[i].function,
        r.args[j].param == r.params[i].param,
        0 <= e < r.events.len(),
        r.events[e].function == r.args[j].closure,
        r.params[i].held.contains(x) || is_inherited(r, r.params[i].function, x),
        !(r.events[e].acquires == "<critical-section>"@ && x == "<critical-section>"@),
    ensures
        p.events[e].held.contains(x),
{
    let l = LinkV {
        source: r.params[i].function,
        target: r.args[j].closure,
        held: r.params[i].held,
    };
    assert(binds(r, i, j));
    assert(is_recorded(r, l));
    if l.held.contains(x) {
        assert(comes_with(r, 0, l.target, x));
    } else {
        let n = choose|n: nat| comes_with(r, n, l.source, x);
        assert(comes_with(r, n + 1, l.target, x));
    }
    events_hold_what_is_inherited(top, r, p, e, x);
}

/// Every direct call runs its callee under what is held at the call and what the
/// calling function inherits.
pub proof fn callees_run_under_the_locks_of_their_callers(
    top: Seq<MemberV>,
    r: RecordsV,
    p: ProgramV,
    i: int,
    e: int,
    x: Name,
)
    requires
        records_of(top) == Ok::<RecordsV, Name>(r),
        program_of(top) == Ok::<ProgramV, Name>(p),
        0 <= i < r.calls.len(),
        0 <= e < r.events.len(),
        r.events[e].function == r.calls[i].target,
        r.calls[i].held.contains(x) || is_inherited(r, r.calls[i].source, x),
        !(r.events[e].acquires == "<critical-section>"@ && x == "<critical-section>"@),
    ensures
        p.events[e].held.contains(x),
{
    let l = r.calls[i];
    assert(is_recorded(r, l));
    if l.held.contains(x) {
        assert(comes_with(r, 0, l.target, x));
    } else {
        let n = choose|n: nat| comes_with(r, n, l.source, x);
        assert(comes_with(r, n + 1, l.target, x));
    }
    events_hold_what_is_inherited(top, r, p, e, x);
}

/// Something is held at a call in `f`: by the function itself or by a caller.
pub open spec fn under_a_lock(r: RecordsV, held: Seq<Name>, f: Name) -> bool {
    held.len() > 0 || exists|x: Name| is_inherited(r, f, x)
}

proof fn lemma_under_a_lock(r: RecordsV, held: Seq<Name>, f: Name)
    ensures
        under_a_lock(r, held, f) <==> effective(held, inheritance_of(r), f).len() > 0,
{
    let q = may_of(inheritance_of(r), f);
    if exists|x: Name| is_inherited(r, f, x) {
        let x = choose|x: Name| is_inherited(r, f, x);
        lemma_inherited(r, f, x);
    }
    if q.len() > 0 {
        lemma_inherited(r, f, q[0]);
        assert(q.contains(q[0]));
    }
}

/// What the parameter call number `i` runs is known: some callable is passed
/// there, and all that are have names.
pub open spec fn is_known(r: RecordsV, i: int) -> bool {
    &&& exists|j: int| binds(r, i, j)
    &&& forall|j: int| #[trigger] binds(r, i, j) ==> r.args[j].closure != "<unknown>"@
}

proof fn lemma_known(r: RecordsV, i: int)
    requires
        0 <= i < r.params.len(),
    ensures
        is_known(r, i) <==> !unknown_callee(r.params[i], r.args),
{
    let p = r.params[i];
    let q = passed(p, r.args);
    if is_known(r, i) {
        let j = choose|j: int| binds(r, i, j);
        let c = r.args[j].closure;
        lemma_passed(p, r.args, c);
        assert(r.args[j].closure == c);
        let k = choose|k: int| 0 <= k < q.len() && q[k] == c;
        assert(q[k] != "<unknown>"@);
        lemma_passed(p, r.args, "<unknown>"@);
        if q.contains("<unknown>"@) {
            let m = choose|m: int|
                0 <= m < r.args.len() && (#[trigger] r.args[m]).callee == p.function
                    && r.args[m].param == p.param && r.args[m].closure == "<unknown>"@;
            assert(binds(r, i, m));
        }
    }
    if !unknown_callee(p, r.args) {
        let k = choose|k: int| 0 <= k < q.len() && #[trigger] q[k] != "<unknown>"@;
        lemma_passed(p, r.args, q[k]);
        let j = choose|j: int|
            0 <= j < r.args.len() && (#[trigger] r.args[j]).callee == p.function && r.args[j].param
                == p.param && r.args[j].closure == q[k];
        assert(binds(r, i, j));
        assert forall|m: int| #[trigger] binds(r, i, m) implies r.args[m].closure
            != "<unknown>"@ by {
            lemma_passed(p, r.args, r.args[m].closure);
        }
    }
}

proof fn lemma_params_resolved(r: RecordsV, n: int)
    requires
        0 <= n <= r.params.len(),
    ensures
        unresolved_param(r.params.take(n), r.args, inheritance_of(r)) is None <==> forall|i: int|
            0 <= i < n && under_a_lock(
                r,
                (#[trigger] r.params[i]).held,
                r.params[i].function,
            ) ==> is_known(r, i),
    decreases n,
{
    let q = r.params.take(n);
    if n > 0 {
        lemma_params_resolved(r, n - 1);
        assert(q.drop_last() =~= r.params.take(n - 1));
        let p = r.params[n - 1];
        assert(q.last() == p);
        lemma_known(r, n - 1);
        lemma_under_a_lock(r, p.held, p.function);
    }
}

/// The entry of `opaque_calls` is of a call at which nothing is held.
pub open spec fn is_harmless(r: RecordsV, v: ValueV) -> bool {
    match v {
        ValueV::Obj(m) => match (field(m, "function"@), field(m, "held"@)) {
            (Some(ValueV::Str(f)), Some(ValueV::Arr(hs))) => hs.len() == 0
                && field(m, "site"@) is Some && field(m, "site"@)->0 is Str
                && !exists|x: Name| is_inherited(r, f, x),
            _ => false,
        },
        _ => false,
    }
}

proof fn lemma_harmless(r: RecordsV, v: ValueV, idx: nat)
    ensures
        is_harmless(r, v) <==> opaque_reason(v, idx, inheritance_of(r)) == Ok::<
            Option<Name>,
            Name,
        >(None),
{
    if let ValueV::Obj(m) = v {
        if let Some(ValueV::Arr(hs)) = field(m, "held"@) {
            lemma_texts_len(hs);
            if let Some(ValueV::Str(f)) = field(m, "function"@) {
                if let Some(q) = all_texts(hs) {
                    lemma_under_a_lock(r, q, f);
                }
                if hs.len() == 0 {
                    assert(all_texts(hs) == Some(Seq::<Name>::empty()));
                }
            }
        }
    }
}

proof fn lemma_texts_len(hs: Seq<ValueV>)
    ensures
        match all_texts(hs) {
            Some(q) => {
                &&& q.len() == hs.len()
                &&& forall|k: int| 0 <= k < hs.len() ==> #[trigger] hs[k] == ValueV::Str(q[k])
            },
            None => exists|k: int| 0 <= k < hs.len() && !((#[trigger] hs[k]) is Str),
        },
    decreases hs.len(),
{
    if hs.len() > 0 {
        let r = hs.drop_last();
        lemma_texts_len(r);
        match all_texts(hs) {
            Some(q) => {
                let p = all_texts(r)->0;
                assert forall|k: int| 0 <= k < hs.len() implies #[trigger] hs[k] == ValueV::Str(
                    q[k],
                ) by {
                    if k < r.len() {
                        assert(r[k] == hs[k]);
                    }
                }
            },
            None => {
                if all_texts(r) is None {
                    let k = choose|k: int| 0 <= k < r.len() && !((#[trigger] r[k]) is Str);
                    assert(!(hs[k] is Str));
                } else {
                    assert(!(hs[hs.len() - 1] is Str));
                }
            },
        }
    }
}

proof fn lemma_opaque_harmless(r: RecordsV, items: Seq<ValueV>)
    ensures
        opaque_under_lock(items, inheritance_of(r)) == Ok::<Option<Name>, Name>(None) <==> forall|
            i: int,
        |
            0 <= i < items.len() ==> is_harmless(r, #[trigger] items[i]),
    decreases items.len(),
{
    if items.len() > 0 {
        let q = items.drop_last();
        lemma_opaque_harmless(r, q);
        lemma_harmless(r, items.last(), (items.len() - 1) as nat);
        if forall|i: int| 0 <= i < items.len() ==> is_harmless(r, #[trigger] items[i]) {
            assert forall|i: int| 0 <= i < q.len() implies is_harmless(r, #[trigger] q[i]) by {
                assert(q[i] == items[i]);
            }
            assert(is_harmless(r, items[items.len() - 1]));
        }
        if opaque_under_lock(items, inheritance_of(r)) == Ok::<Option<Name>, Name>(None) {
            assert forall|i: int| 0 <= i < items.len() implies is_harmless(
                r,
                #[trigger] items[i],
            ) by {
                if i < q.len() {
                    assert(is_harmless(r, q[i]));
                }
            }
        }
    }
}

/// A document is taken as complete if and only if it gives no reason of its own,
/// every parameter call under a lock is known, and nothing is held at any opaque
/// call.
pub proof fn complete_iff_nothing_is_lost(top: Seq<MemberV>, r: RecordsV, p: ProgramV)
    requires
        records_of(top) == Ok::<RecordsV, Name>(r),
        program_of(top) == Ok::<ProgramV, Name>(p),
    ensures
        p.incomplete is None <==> {
            &&& !(field(top, "incomplete"@) is Some && field(top, "incomplete"@)->0 is Str)
            &&& forall|i: int|
                0 <= i < r.params.len() && under_a_lock(
                    r,
                    (#[trigger] r.params[i]).held,
                    r.params[i].function,
                ) ==> is_known(r, i)
            &&& match field(top, "opaque_calls"@) {
                Some(ValueV::Arr(items)) => forall|i: int|
                    0 <= i < items.len() ==> is_harmless(r, #[trigger] items[i]),
                _ => true,
            }
        },
        match field(top, "incomplete"@) {
            Some(ValueV::Str(why)) => p.incomplete == Some(why),
            _ => true,
        },
{
    let n = r.params.len() as int;
    lemma_params_resolved(r, n);
    assert(r.params.take(n) =~= r.params);
    if let Some(ValueV::Arr(items)) = field(top, "opaque_calls"@) {
        lemma_opaque_harmless(r, items);
    }
}

/// The classes with a count are those that the document counts and those that
/// occur in the events; a class that the document does not count has two
/// instances.
pub proof fn uncounted_classes_have_two_instances(
    top: Seq<MemberV>,
    r: RecordsV,
    p: ProgramV,
    c: Name,
)
    requires
        records_of(top) == Ok::<RecordsV, Name>(r),
        program_of(top) == Ok::<ProgramV, Name>(p),
    ensures
        p.class_instances.contains_key(c) <==> r.counts.contains_key(c) || occurs(p.events, c),
        r.counts.contains_key(c) ==> p.class_instances[c] == r.counts[c],
        !r.counts.contains_key(c) && occurs(p.events, c) ==> p.class_instances[c] == 2,
{
    let all = widened(r.events, inheritance_of(r));
    lemma_mentioned(all, c);
    if occurs(p.events, c) {
        let i = choose|i: int| #[trigger] occurs_at(p.events, i, c);
        lemma_without(all[i].held, critical_section(), c);
        assert(occurs_at(all, i, c));
    }
    if occurs(all, c) {
        let i = choose|i: int| #[trigger] occurs_at(all, i, c);
        lemma_without(all[i].held, critical_section(), c);
        assert(occurs_at(p.events, i, c));
    }
}

/// The object has the string `s` under `key`.
pub open spec fn has_text(m: Seq<MemberV>, key: Name, s: Name) -> bool {
    field(m, key) == Some(ValueV::Str(s))
}

/// The object has the list of strings `q` under `held`.
pub open spec fn has_held(m: Seq<MemberV>, q: Seq<Name>) -> bool {
    match field(m, "held"@) {
        Some(ValueV::Arr(hs)) => hs.len() == q.len() && forall|k: int|
            0 <= k < hs.len() ==> #[trigger] hs[k] == ValueV::Str(q[k]),
        _ => false,
    }
}

/// The value is the entry of the event `e`.
pub open spec fn shows_event(v: ValueV, e: EventV) -> bool {
    match v {
        ValueV::Obj(m) => has_text(m, "function"@, e.function) && has_text(m, "site"@, e.site)
            && has_text(m, "acquires"@, e.acquires) && has_held(m, e.held),
        _ => false,
    }
}

/// The value is the entry of the call `l`.
pub open spec fn shows_call(v: ValueV, l: LinkV) -> bool {
    match v {
        ValueV::Obj(m) => has_text(m, "function"@, l.source) && has_text(m, "callee"@, l.target)
            && has_held(m, l.held),
        _ => false,
    }
}

/// The value is the entry of the parameter call `c`.
pub open spec fn shows_param_call(v: ValueV, c: ParamCallV) -> bool {
    match v {
        ValueV::Obj(m) => has_text(m, "function"@, c.function) && field(m, "param"@) == Some(
            ValueV::Num(c.param),
        ) && has_held(m, c.held),
        _ => false,
    }
}

/// The value is the entry of the closure argument `a`.
pub open spec fn shows_closure_arg(v: ValueV, a: ClosureArgV) -> bool {
    match v {
        ValueV::Obj(m) => has_text(m, "callee"@, a.callee) && field(m, "param"@) == Some(
            ValueV::Num(a.param),
        ) && has_text(m, "closure"@, a.closure),
        _ => false,
    }
}

/// The list under `key` is that of the values of which the `k`-th shows the
/// `k`-th record; a list that is missing shows no records.
pub open spec fn lists<T>(
    top: Seq<MemberV>,
    key: Name,
    q: Seq<T>,
    shows: spec_fn(ValueV, T) -> bool,
) -> bool {
    match field(top, key) {
        Some(ValueV::Arr(items)) => items.len() == q.len() && forall|k: int|
            0 <= k < items.len() ==> shows(#[trigger] items[k], q[k]),
        _ => q.len() == 0,
    }
}

proof fn lemma_entries<T>(
    items: Seq<ValueV>,
    f: spec_fn(ValueV, nat) -> Result<T, Name>,
    q: Seq<T>,
)
    requires
        entries(items, f) == Ok::<Seq<T>, Name>(q),
    ensures
        items.len() == q.len(),
        forall|k: int| 0 <= k < items.len() ==> f(#[trigger] items[k], k as nat) == Ok::<T, Name>(q[k]),
    decreases items.len(),
{
    if items.len() > 0 {
        let r = items.drop_last();
        let p = entries(r, f)->Ok_0;
        lemma_entries(r, f, p);
        assert forall|k: int| 0 <= k < items.len() implies f(#[trigger] items[k], k as nat) == Ok::<
            T,
            Name,
        >(q[k]) by {
            if k < r.len() {
                assert(r[k] == items[k]);
                assert(q[k] == p[k]);
            }
        }
    }
}

proof fn lemma_held_shown(m: Seq<MemberV>)
    ensures
        match field(m, "held"@) {
            Some(ValueV::Arr(hs)) => match all_texts(hs) {
                Some(q) => has_held(m, q),
                None => true,
            },
            _ => true,
        },
{
    if let Some(ValueV::Arr(hs)) = field(m, "held"@) {
        lemma_texts_len(hs);
    }
}

/// The records of a document are its entries, one for one and in order, each with
/// what the entry has under its keys.
pub proof fn records_are_the_entries(top: Seq<MemberV>, r: RecordsV)
    requires
        records_of(top) == Ok::<RecordsV, Name>(r),
    ensures
        field(top, "events"@) is Some,
        lists(top, "events"@, r.events, |v: ValueV, e: EventV| shows_event(v, e)),
        lists(top, "calls"@, r.calls, |v: ValueV, l: LinkV| shows_call(v, l)),
        lists(top, "param_calls"@, r.params, |v: ValueV, c: ParamCallV| shows_param_call(v, c)),
        lists(
            top,
            "closure_args"@,
            r.args,
            |v: ValueV, a: ClosureArgV| shows_closure_arg(v, a),
        ),
{
    if let Some(ValueV::Arr(items)) = field(top, "events"@) {
        lemma_entries(items, |v: ValueV, i: nat| event_of(v, i), r.events);
        assert forall|k: int| 0 <= k < items.len() implies shows_event(
            #[trigger] items[k],
            r.events[k],
        ) by {
            lemma_held_shown(items[k]->Obj_0);
        }
    }
    if let Some(ValueV::Arr(items)) = field(top, "calls"@) {
        lemma_entries(items, |v: ValueV, i: nat| call_of(v, i), r.calls);
        assert forall|k: int| 0 <= k < items.len() implies shows_call(
            #[trigger] items[k],
            r.calls[k],
        ) by {
            lemma_held_shown(items[k]->Obj_0);
        }
    }
    if let Some(ValueV::Arr(items)) = field(top, "param_calls"@) {
        lemma_entries(items, |v: ValueV, i: nat| param_call_of(v, i), r.params);
        assert forall|k: int| 0 <= k < items.len() implies shows_param_call(
            #[trigger] items[k],
            r.params[k],
        ) by {
            lemma_held_shown(items[k]->Obj_0);
        }
    }
    if let Some(ValueV::Arr(items)) = field(top, "closure_args"@) {
        lemma_entries(items, |v: ValueV, i: nat| closure_arg_of(v, i), r.args);
    }
}

/// The counts of a document are those of its object `class_instances`: of the
/// members that bear the name of a class, the last counts.
pub proof fn counts_are_the_members(top: Seq<MemberV>, r: RecordsV, c: Name)
    requires
        records_of(top) == Ok::<RecordsV, Name>(r),
    ensures
        match field(top, "class_instances"@) {
            Some(ValueV::Obj(ms)) => {
                &&& r.counts.contains_key(c) <==> has_key(ms, c)
                &&& forall|k: int|
                    0 <= k < ms.len() && (#[trigger] ms[k]).key == c && !is_repeated(ms, k)
                        ==> ms[k].value is Num && r.counts[c] == ms[k].value->Num_0 as usize
            },
            _ => !r.counts.contains_key(c),
        },
{
    if let Some(ValueV::Obj(ms)) = field(top, "class_instances"@) {
        lemma_counts(ms, r.counts, c);
        assert forall|k: int|
            0 <= k < ms.len() && (#[trigger] ms[k]).key == c && !is_repeated(
                ms,
                k,
            ) implies ms[k].value is Num && r.counts[c] == ms[k].value->Num_0 as usize by {
            lemma_count(ms, r.counts, k);
        }
    }
}

/// A later member bears the same key.
pub open spec fn is_repeated(ms: Seq<MemberV>, k: int) -> bool {
    exists|j: int| k < j < ms.len() && (#[trigger] ms[j]).key == ms[k].key
}

/// Some member bears the key.
pub open spec fn has_key(ms: Seq<MemberV>, c: Name) -> bool {
    exists|k: int| 0 <= k < ms.len() && (#[trigger] ms[k]).key == c
}

proof fn lemma_counts(ms: Seq<MemberV>, m: Map<Name, usize>, c: Name)
    requires
        counts_in(ms) == Ok::<Map<Name, usize>, Name>(m),
    ensures
        m.contains_key(c) <==> has_key(ms, c),
    decreases ms.len(),
{
    if ms.len() > 0 {
        let r = ms.drop_last();
        let before = counts_in(r)->Ok_0;
        let last = ms.len() - 1;
        lemma_counts(r, before, c);
        assert(m == before.insert(ms[last].key, ms[last].value->Num_0 as usize));
        if has_key(r, c) {
            let k = choose|k: int| 0 <= k < r.len() && (#[trigger] r[k]).key == c;
            assert(ms[k].key == c);
        }
        if has_key(ms, c) {
            let k = choose|k: int| 0 <= k < ms.len() && (#[trigger] ms[k]).key == c;
            if k < last {
                assert(r[k].key == c);
            }
        }
    }
}

proof fn lemma_count(ms: Seq<MemberV>, m: Map<Name, usize>, k: int)
    requires
        counts_in(ms) == Ok::<Map<Name, usize>, Name>(m),
        0 <= k < ms.len(),
        !is_repeated(ms, k),
    ensures
        ms[k].value is Num,
        m[ms[k].key] == ms[k].value->Num_0 as usize,
    decreases ms.len(),
{
    let r = ms.drop_last();
    let before = counts_in(r)->Ok_0;
    let last = ms.len() - 1;
    assert(m == before.insert(ms[last].key, ms[last].value->Num_0 as usize));
    if k < last {
        assert(ms[last].key != ms[k].key);
        assert(!is_repeated(r, k)) by {
            if is_repeated(r, k) {
                let j = choose|j: int| k < j < r.len() && (#[trigger] r[j]).key == r[k].key;
                assert(ms[j].key == ms[k].key);
            }
        }
        lemma_count(r, before, k);
        assert(r[k] == ms[k]);
    }
}

proof fn lemma_entries_read<T>(
    items: Seq<ValueV>,
    f: spec_fn(ValueV, nat) -> Result<T, Name>,
    q: Seq<T>,
)
    requires
        items.len() == q.len(),
        forall|k: int| 0 <= k < items.len() ==> f(#[trigger] items[k], k as nat) == Ok::<T, Name>(q[k]),
    ensures
        entries(items, f) == Ok::<Seq<T>, Name>(q),
    decreases items.len(),
{
    if items.len() > 0 {
        let r = items.drop_last();
        let p = q.drop_last();
        assert forall|k: int| 0 <= k < r.len() implies f(#[trigger] r[k], k as nat) == Ok::<
            T,
            Name,
        >(p[k]) by {
            assert(r[k] == items[k]);
        }
        lemma_entries_read(r, f, p);
        assert(f(items[items.len() - 1], (items.len() - 1) as nat) == Ok::<T, Name>(q.last()));
        assert(p.push(q.last()) =~= q);
    } else {
        assert(q =~= Seq::empty());
    }
}

proof fn lemma_held_read(m: Seq<MemberV>, q: Seq<Name>)
    requires
        has_held(m, q),
    ensures
        all_texts(field(m, "held"@)->0->Arr_0) == Some(q),
{
    let hs = field(m, "held"@)->0->Arr_0;
    lemma_texts_len(hs);
    assert(hs.len() == q.len());
    let p = all_texts(hs)->0;
    assert forall|k: int| 0 <= k < q.len() implies p[k] == q[k] by {
        assert(hs[k] == ValueV::Str(q[k]));
    }
    assert(p =~= q);
}

/// A document whose entries show the records is read, as those records.
pub proof fn entries_are_read(top: Seq<MemberV>, r: RecordsV)
    requires
        field(top, "events"@) is Some && field(top, "events"@)->0 is Arr,
        lists(top, "events"@, r.events, |v: ValueV, e: EventV| shows_event(v, e)),
        lists(top, "calls"@, r.calls, |v: ValueV, l: LinkV| shows_call(v, l)),
        lists(top, "param_calls"@, r.params, |v: ValueV, c: ParamCallV| shows_param_call(v, c)),
        lists(
            top,
            "closure_args"@,
            r.args,
            |v: ValueV, a: ClosureArgV| shows_closure_arg(v, a),
        ),
        match field(top, "class_instances"@) {
            Some(ValueV::Obj(ms)) => forall|k: int|
                0 <= k < ms.len() ==> (#[trigger] ms[k]).value is Num,
            _ => true,
        },
    ensures
        ({
            let read = records_of(top);
            &&& read is Ok
            &&& read->Ok_0.events == r.events
            &&& read->Ok_0.calls == r.calls
            &&& read->Ok_0.params == r.params
            &&& read->Ok_0.args == r.args
        }),
{
    let items = field(top, "events"@)->0->Arr_0;
    assert forall|k: int| 0 <= k < items.len() implies event_of(#[trigger] items[k], k as nat)
        == Ok::<EventV, Name>(r.events[k]) by {
        assert(shows_event(items[k], r.events[k]));
        lemma_held_read(items[k]->Obj_0, r.events[k].held);
    }
    lemma_entries_read(items, |v: ValueV, i: nat| event_of(v, i), r.events);
    if let Some(ValueV::Obj(ms)) = field(top, "class_instances"@) {
        lemma_counts_read(ms);
    }
    if let Some(ValueV::Arr(items)) = field(top, "calls"@) {
        assert forall|k: int| 0 <= k < items.len() implies call_of(#[trigger] items[k], k as nat)
            == Ok::<LinkV, Name>(r.calls[k]) by {
            assert(shows_call(items[k], r.calls[k]));
            lemma_held_read(items[k]->Obj_0, r.calls[k].held);
        }
        lemma_entries_read(items, |v: ValueV, i: nat| call_of(v, i), r.calls);
    } else {
        assert(r.calls =~= Seq::empty());
    }
    if let Some(ValueV::Arr(items)) = field(top, "param_calls"@) {
        assert forall|k: int| 0 <= k < items.len() implies param_call_of(
            #[trigger] items[k],
            k as nat,
        ) == Ok::<ParamCallV, Name>(r.params[k]) by {
            assert(shows_param_call(items[k], r.params[k]));
            lemma_held_read(items[k]->Obj_0, r.params[k].held);
        }
        lemma_entries_read(items, |v: ValueV, i: nat| param_call_of(v, i), r.params);
    } else {
        assert(r.params =~= Seq::empty());
    }
    if let Some(ValueV::Arr(items)) = field(top, "closure_args"@) {
        assert forall|k: int| 0 <= k < items.len() implies closure_arg_of(
            #[trigger] items[k],
            k as nat,
        ) == Ok::<ClosureArgV, Name>(r.args[k]) by {
            assert(shows_closure_arg(items[k], r.args[k]));
        }
        lemma_entries_read(items, |v: ValueV, i: nat| closure_arg_of(v, i), r.args);
    } else {
        assert(r.args =~= Seq::empty());
    }
}

proof fn lemma_counts_read(ms: Seq<MemberV>)
    requires
        forall|k: int| 0 <= k < ms.len() ==> (#[trigger] ms[k]).value is Num,
    ensures
        counts_in(ms) is Ok,
    decreases ms.len(),
{
    if ms.len() > 0 {
        let r = ms.drop_last();
        assert forall|k: int| 0 <= k < r.len() implies (#[trigger] r[k]).value is Num by {
            assert(r[k] == ms[k]);
        }
        lemma_counts_read(r);
        assert(ms[ms.len() - 1].value is Num);
    }
}

/// A document names its program; one without a name is called `events`.
pub proof fn documents_name_their_program(top: Seq<MemberV>, p: ProgramV)
    requires
        program_of(top) == Ok::<ProgramV, Name>(p),
    ensures
        match field(top, "name"@) {
            Some(ValueV::Str(name)) => p.name == name,
            _ => p.name == "events"@,
        },
{
}

/// The entry of `opaque_calls` names a function and a site, and lists what is held.
pub open spec fn is_whole(v: ValueV) -> bool {
    v is Obj && exists|f: Name, site: Name, held: Seq<Name>| #[trigger]
        is_opaque_entry(v->Obj_0, f, site, held)
}

/// The members of an entry of `opaque_calls`.
pub open spec fn is_opaque_entry(m: Seq<MemberV>, f: Name, site: Name, held: Seq<Name>) -> bool {
    has_text(m, "function"@, f) && has_text(m, "site"@, site) && has_held(m, held)
}

proof fn lemma_whole(items: Seq<ValueV>, m: Entry)
    requires
        forall|k: int| 0 <= k < items.len() ==> is_whole(#[trigger] items[k]),
    ensures
        opaque_under_lock(items, m) is Ok,
    decreases items.len(),
{
    if items.len() > 0 {
        let r = items.drop_last();
        assert forall|k: int| 0 <= k < r.len() implies is_whole(#[trigger] r[k]) by {
            assert(r[k] == items[k]);
        }
        lemma_whole(r, m);
        let v = items[items.len() - 1];
        assert(is_whole(v));
        let (f, site, held) = choose|f: Name, site: Name, held: Seq<Name>| #[trigger]
            is_opaque_entry(v->Obj_0, f, site, held);
        lemma_held_read(v->Obj_0, held);
    }
}

/// A document whose lists are read and whose unknown calls are whole describes a
/// program: nothing else is refused.
pub proof fn whole_documents_are_programs(top: Seq<MemberV>, r: RecordsV)
    requires
        records_of(top) == Ok::<RecordsV, Name>(r),
        match field(top, "opaque_calls"@) {
            Some(ValueV::Arr(items)) => forall|k: int|
                0 <= k < items.len() ==> is_whole(#[trigger] items[k]),
            _ => true,
        },
    ensures
        program_of(top) is Ok,
{
    if let Some(ValueV::Arr(items)) = field(top, "opaque_calls"@) {
        lemma_whole(items, inheritance_of(r));
    }
}

}
