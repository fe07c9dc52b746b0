//! Reader for pre-lowered lock-acquisition events in JSON form.
//!
//! The MIR front end ([`crate::lint`]) analyzes real Rust and emits the same
//! list of events that the `.whorl` front end produces from source:
//!
//! ```text
//! {
//!   "name": "mir",
//!   "events": [
//!     { "function": "f", "site": "lib.rs:7", "acquires": "C", "held": ["B"] }
//!   ],
//!   "class_instances": { "C": 2, "B": 1 },
//!   "incomplete": "optional reason"
//! }
//! ```
//!
//! The document may also hold `calls`, `param_calls`, `closure_args` and
//! `opaque_calls`, from which the reader works out what callers hold.

use vstd::prelude::*;

use crate::inherit::{
    add_new, append_all, append_new, carried, entry_may, inheritance, inherited,
    inherited_iff_carried, lemma_add_new, lemma_concat_contains, lemma_push_contains, link_views,
    may_of, sets, Entry, Link, LinkV,
};
use crate::json::{
    field, get, member_views, parse_document, read_document, value_view, value_views, Member,
    MemberV, Value, ValueV,
};
use crate::model::{event_views, has_edge, opt_name, Event, EventV, Program, ProgramV};
use crate::namemap::NameMap;
use crate::solver::mentioned;
use crate::text::{clone_names, dec, names, push_dec, str_eq, Name};
use crate::unicode::{push_list, shown_list};

verus! {

/// `function` calls its parameter number `param` with the locks `held`.
pub struct ParamCall {
    pub function: String,
    pub param: usize,
    pub held: Vec<String>,
}

/// The mathematical value of a [`ParamCall`].
pub struct ParamCallV {
    pub function: Name,
    pub param: nat,
    pub held: Seq<Name>,
}

/// Some caller passes `closure` as parameter number `param` of `callee`.
pub struct ClosureArg {
    pub callee: String,
    pub param: usize,
    pub closure: String,
}

/// The mathematical value of a [`ClosureArg`].
pub struct ClosureArgV {
    pub callee: Name,
    pub param: nat,
    pub closure: Name,
}

impl View for ParamCall {
    type V = ParamCallV;

    open spec fn view(&self) -> ParamCallV {
        ParamCallV {
            function: self.function@,
            param: self.param as nat,
            held: names(self.held@),
        }
    }
}

impl View for ClosureArg {
    type V = ClosureArgV;

    open spec fn view(&self) -> ClosureArgV {
        ClosureArgV {
            callee: self.callee@,
            param: self.param as nat,
            closure: self.closure@,
        }
    }
}

pub open spec fn param_call_views(v: Seq<ParamCall>) -> Seq<ParamCallV> {
    v.map_values(|x: ParamCall| x@)
}

pub open spec fn closure_arg_views(v: Seq<ClosureArg>) -> Seq<ClosureArgV> {
    v.map_values(|x: ClosureArg| x@)
}

/// `{what}[{idx}]`.
pub open spec fn entry_name(what: Name, idx: nat) -> Name {
    what + "["@ + dec(idx) + "]"@
}

/// An entry of a list, which has to be an object.
pub open spec fn entry_object(v: ValueV, what: Name, idx: nat) -> Result<Seq<MemberV>, Name> {
    match v {
        ValueV::Obj(m) => Ok(m),
        _ => Err(entry_name(what, idx) + " is not an object"@),
    }
}

/// A field that has to be a string.
pub open spec fn text_field(obj: Seq<MemberV>, key: Name, idx: nat) -> Result<Name, Name> {
    match field(obj, key) {
        Some(ValueV::Str(s)) => Ok(s),
        _ => Err(entry_name("events"@, idx) + " is missing string field \""@ + key + "\""@),
    }
}

/// A field that has to be a number.
pub open spec fn number_field(obj: Seq<MemberV>, key: Name, idx: nat) -> Result<nat, Name> {
    match field(obj, key) {
        Some(ValueV::Num(n)) => Ok(n),
        _ => Err(entry_name("entry"@, idx) + " is missing number field \""@ + key + "\""@),
    }
}

/// The strings of a list, if it holds nothing else.
pub open spec fn all_texts(items: Seq<ValueV>) -> Option<Seq<Name>>
    decreases items.len(),
{
    if items.len() == 0 {
        Some(Seq::empty())
    } else {
        match (all_texts(items.drop_last()), items.last()) {
            (Some(q), ValueV::Str(s)) => Some(q.push(s)),
            _ => None,
        }
    }
}

/// The field `held`, which has to be a list of strings.
pub open spec fn held_classes_field(obj: Seq<MemberV>, what: Name, idx: nat) -> Result<
    Seq<Name>,
    Name,
> {
    match field(obj, "held"@) {
        Some(ValueV::Arr(items)) => match all_texts(items) {
            Some(q) => Ok(q),
            None => Err(entry_name(what, idx) + ".held contains a non-string"@),
        },
        _ => Err(entry_name(what, idx) + " is missing \"held\""@),
    }
}

/// One entry of `events`.
pub open spec fn event_of(v: ValueV, idx: nat) -> Result<EventV, Name> {
    match entry_object(v, "events"@, idx) {
        Err(e) => Err(e),
        Ok(obj) => match text_field(obj, "function"@, idx) {
            Err(e) => Err(e),
            Ok(function) => match text_field(obj, "site"@, idx) {
                Err(e) => Err(e),
                Ok(site) => match text_field(obj, "acquires"@, idx) {
                    Err(e) => Err(e),
                    Ok(acquires) => match held_classes_field(obj, "events"@, idx) {
                        Err(e) => Err(e),
                        Ok(held) => Ok(EventV { function, site, held, acquires }),
                    },
                },
            },
        },
    }
}

/// One entry of `calls`.
pub open spec fn call_of(v: ValueV, idx: nat) -> Result<LinkV, Name> {
    match entry_object(v, "calls"@, idx) {
        Err(e) => Err(e),
        Ok(obj) => match text_field(obj, "function"@, idx) {
            Err(e) => Err(e),
            Ok(source) => match text_field(obj, "callee"@, idx) {
                Err(e) => Err(e),
                Ok(target) => match held_classes_field(obj, "calls"@, idx) {
                    Err(e) => Err(e),
                    Ok(held) => Ok(LinkV { source, target, held }),
                },
            },
        },
    }
}

/// One entry of `param_calls`.
pub open spec fn param_call_of(v: ValueV, idx: nat) -> Result<ParamCallV, Name> {
    match entry_object(v, "param_calls"@, idx) {
        Err(e) => Err(e),
        Ok(obj) => match text_field(obj, "function"@, idx) {
            Err(e) => Err(e),
            Ok(function) => match number_field(obj, "param"@, idx) {
                Err(e) => Err(e),
                Ok(param) => match held_classes_field(obj, "param_calls"@, idx) {
                    Err(e) => Err(e),
                    Ok(held) => Ok(ParamCallV { function, param, held }),
                },
            },
        },
    }
}

/// One entry of `closure_args`.
pub open spec fn closure_arg_of(v: ValueV, idx: nat) -> Result<ClosureArgV, Name> {
    match entry_object(v, "closure_args"@, idx) {
        Err(e) => Err(e),
        Ok(obj) => match text_field(obj, "callee"@, idx) {
            Err(e) => Err(e),
            Ok(callee) => match number_field(obj, "param"@, idx) {
                Err(e) => Err(e),
                Ok(param) => match text_field(obj, "closure"@, idx) {
                    Err(e) => Err(e),
                    Ok(closure) => Ok(ClosureArgV { callee, param, closure }),
                },
            },
        },
    }
}

/// The entries that `f` reads, in order, up to the first that it refuses.
pub open spec fn entries<T>(
    items: Seq<ValueV>,
    f: spec_fn(ValueV, nat) -> Result<T, Name>,
) -> Result<Seq<T>, Name>
    decreases items.len(),
{
    if items.len() == 0 {
        Ok(Seq::empty())
    } else {
        match entries(items.drop_last(), f) {
            Err(e) => Err(e),
            Ok(q) => match f(items.last(), (items.len() - 1) as nat) {
                Err(e) => Err(e),
                Ok(x) => Ok(q.push(x)),
            },
        }
    }
}

/// A list of entries that may be missing.
pub open spec fn optional_entries<T>(
    top: Seq<MemberV>,
    key: Name,
    f: spec_fn(ValueV, nat) -> Result<T, Name>,
) -> Result<Seq<T>, Name> {
    match field(top, key) {
        Some(ValueV::Arr(items)) => entries(items, f),
        _ => Ok(Seq::empty()),
    }
}

/// The list `events`, which has to be there.
pub open spec fn events_of(top: Seq<MemberV>) -> Result<Seq<EventV>, Name> {
    match field(top, "events"@) {
        Some(ValueV::Arr(items)) => entries(items, |v: ValueV, i: nat| event_of(v, i)),
        _ => Err("top-level \"events\" array is missing"@),
    }
}

/// The instance counts, each of which has to be a number.
pub open spec fn counts_in(members: Seq<MemberV>) -> Result<Map<Name, usize>, Name>
    decreases members.len(),
{
    if members.len() == 0 {
        Ok(Map::empty())
    } else {
        match counts_in(members.drop_last()) {
            Err(e) => Err(e),
            Ok(m) => match members.last().value {
                ValueV::Num(n) => Ok(m.insert(members.last().key, n as usize)),
                _ => Err(
                    "class_instances[\""@ + members.last().key + "\"] is not a number"@,
                ),
            },
        }
    }
}

/// The object `class_instances`, which may be missing.
pub open spec fn counts_of(top: Seq<MemberV>) -> Result<Map<Name, usize>, Name> {
    match field(top, "class_instances"@) {
        Some(ValueV::Obj(members)) => counts_in(members),
        _ => Ok(Map::empty()),
    }
}

/// The callables passed where `p` calls its parameter, in order.
pub open spec fn passed(p: ParamCallV, args: Seq<ClosureArgV>) -> Seq<Name>
    decreases args.len(),
{
    if args.len() == 0 {
        Seq::empty()
    } else if args.last().callee == p.function && args.last().param == p.param {
        passed(p, args.drop_last()).push(args.last().closure)
    } else {
        passed(p, args.drop_last())
    }
}

/// The calls that parameters stand for: each parameter call may run every
/// callable that is passed there.
pub open spec fn resolved(params: Seq<ParamCallV>, args: Seq<ClosureArgV>) -> Seq<LinkV>
    decreases params.len(),
{
    if params.len() == 0 {
        Seq::empty()
    } else {
        let p = params.last();
        resolved(params.drop_last(), args) + passed(p, args).map_values(
            |c: Name| LinkV { source: p.function, target: c, held: p.held },
        )
    }
}

/// The events with the classes that callers may hold added to those held.
pub open spec fn widened(events: Seq<EventV>, m: Entry) -> Seq<EventV> {
    events.map_values(
        |e: EventV| EventV { held: add_new(e.held, may_of(m, e.function)), ..e },
    )
}

/// The instance counts; a class without a count has two.
pub open spec fn counted(counts: Map<Name, usize>, events: Seq<EventV>) -> Map<Name, usize> {
    Map::new(
        |c: Name| counts.contains_key(c) || mentioned(events).contains(c),
        |c: Name|
            if counts.contains_key(c) {
                counts[c]
            } else {
                2
            },
    )
}

/// The synthetic class of the critical section.
pub open spec fn critical_section() -> Name {
    "<critical-section>"@
}

/// `q` without `x`.
pub open spec fn without(q: Seq<Name>, x: Name) -> Seq<Name>
    decreases q.len(),
{
    if q.len() == 0 {
        Seq::empty()
    } else if q.last() == x {
        without(q.drop_last(), x)
    } else {
        without(q.drop_last(), x).push(q.last())
    }
}

/// The critical section is reentrant: entering it inside itself orders nothing.
pub open spec fn reentered(events: Seq<EventV>) -> Seq<EventV> {
    events.map_values(
        |e: EventV|
            if e.acquires == critical_section() {
                EventV { held: without(e.held, critical_section()), ..e }
            } else {
                e
            },
    )
}

/// Not every callable passed where `p` calls its parameter is known: none is,
/// or one has no name.
pub open spec fn unknown_callee(p: ParamCallV, args: Seq<ClosureArgV>) -> bool {
    let q = passed(p, args);
    ||| !exists|i: int| 0 <= i < q.len() && #[trigger] q[i] != "<unknown>"@
    ||| q.contains("<unknown>"@)
}

/// What is held at a call: the locks of the function itself and those that its
/// callers may hold.
pub open spec fn effective(held: Seq<Name>, m: Entry, f: Name) -> Seq<Name> {
    held + may_of(m, f)
}

/// The first parameter call under a lock whose callee is not known.
pub open spec fn unresolved_param(
    params: Seq<ParamCallV>,
    args: Seq<ClosureArgV>,
    m: Entry,
) -> Option<Name>
    decreases params.len(),
{
    if params.len() == 0 {
        None
    } else {
        match unresolved_param(params.drop_last(), args, m) {
            Some(r) => Some(r),
            None => {
                let p = params.last();
                let held = effective(p.held, m, p.function);
                if held.len() > 0 && unknown_callee(p, args) {
                    Some(
                        p.function + " calls its parameter #"@ + dec(p.param)
                            + " while holding "@ + shown_list(held)
                            + ", and not every callable passed there could be resolved"@,
                    )
                } else {
                    None
                }
            },
        }
    }
}

/// Why a call of which it is not known what it runs loses ordering edges, when
/// the locks `held` are held there.
pub open spec fn lost_call(site: Name, f: Name, held: Seq<Name>) -> Name {
    "unresolved indirect call (fn pointer, trait object or unnameable callable) at "@ + site
        + " in "@ + f + " while holding "@ + shown_list(held)
}

/// One entry of `opaque_calls`: the reason it gives, if a lock is held there.
pub open spec fn opaque_reason(v: ValueV, idx: nat, m: Entry) -> Result<Option<Name>, Name> {
    match entry_object(v, "opaque_calls"@, idx) {
        Err(e) => Err(e),
        Ok(obj) => match text_field(obj, "function"@, idx) {
            Err(e) => Err(e),
            Ok(f) => match text_field(obj, "site"@, idx) {
                Err(e) => Err(e),
                Ok(site) => match held_classes_field(obj, "opaque_calls"@, idx) {
                    Err(e) => Err(e),
                    Ok(held) => {
                        let all = effective(held, m, f);
                        if all.len() == 0 {
                            Ok(None)
                        } else {
                            Ok(Some(lost_call(site, f, all)))
                        }
                    },
                },
            },
        },
    }
}

/// The first opaque call under a lock.
pub open spec fn opaque_under_lock(items: Seq<ValueV>, m: Entry) -> Result<Option<Name>, Name>
    decreases items.len(),
{
    if items.len() == 0 {
        Ok(None)
    } else {
        match opaque_under_lock(items.drop_last(), m) {
            Ok(None) => opaque_reason(items.last(), (items.len() - 1) as nat, m),
            done => done,
        }
    }
}

/// Why the absence of a deadlock would not be conclusive: an indirect call under
/// a held lock whose callee is not known loses ordering edges.
pub open spec fn unresolved(
    top: Seq<MemberV>,
    params: Seq<ParamCallV>,
    args: Seq<ClosureArgV>,
    m: Entry,
) -> Result<Option<Name>, Name> {
    match unresolved_param(params, args, m) {
        Some(r) => Ok(Some(r)),
        None => match field(top, "opaque_calls"@) {
            Some(ValueV::Arr(items)) => opaque_under_lock(items, m),
            _ => Ok(None),
        },
    }
}

/// The lists that a document holds.
pub struct RecordsV {
    pub events: Seq<EventV>,
    pub counts: Map<Name, usize>,
    pub calls: Seq<LinkV>,
    pub params: Seq<ParamCallV>,
    pub args: Seq<ClosureArgV>,
}

/// The lists of a document, of which only `events` has to be there.
pub open spec fn records_of(top: Seq<MemberV>) -> Result<RecordsV, Name> {
    match events_of(top) {
        Err(e) => Err(e),
        Ok(events) => match counts_of(top) {
            Err(e) => Err(e),
            Ok(counts) => match optional_entries(top, "calls"@, |v: ValueV, i: nat| call_of(v, i)) {
                Err(e) => Err(e),
                Ok(calls) => match optional_entries(
                    top,
                    "param_calls"@,
                    |v: ValueV, i: nat| param_call_of(v, i),
                ) {
                    Err(e) => Err(e),
                    Ok(params) => match optional_entries(
                        top,
                        "closure_args"@,
                        |v: ValueV, i: nat| closure_arg_of(v, i),
                    ) {
                        Err(e) => Err(e),
                        Ok(args) => Ok(RecordsV { events, counts, calls, params, args }),
                    },
                },
            },
        },
    }
}

/// What the callers of each function may hold.
pub open spec fn inheritance_of(r: RecordsV) -> Entry {
    entry_may(r.calls + resolved(r.params, r.args))
}

/// The program that a document describes.
pub open spec fn program_of(top: Seq<MemberV>) -> Result<ProgramV, Name> {
    match records_of(top) {
        Err(e) => Err(e),
        Ok(r) => {
            let m = inheritance_of(r);
            let all = widened(r.events, m);
            match unresolved(top, r.params, r.args, m) {
                Err(e) => Err(e),
                Ok(reason) => Ok(
                    ProgramV {
                        name: match field(top, "name"@) {
                            Some(ValueV::Str(n)) => n,
                            _ => "events"@,
                        },
                        events: reentered(all),
                        class_instances: counted(r.counts, all),
                        incomplete: match field(top, "incomplete"@) {
                            Some(ValueV::Str(why)) => Some(why),
                            _ => reason,
                        },
                    },
                ),
            }
        },
    }
}

/// The program that a text describes.
pub open spec fn reading(src: Name) -> Result<ProgramV, Name> {
    match read_document(src) {
        Err(e) => Err(e),
        Ok(top) => program_of(top),
    }
}

fn push_entry_name(out: &mut String, what: &str, idx: usize)
    ensures
        final(out)@ == old(out)@ + entry_name(what@, idx as nat),
{
    let ghost before = out@;
    out.append(what);
    out.append("[");
    push_dec(out, idx);
    out.append("]");
    assert(out@ =~= before + entry_name(what@, idx as nat));
}

fn entry_error(what: &str, idx: usize, rest: &str) -> (e: String)
    ensures
        e@ == entry_name(what@, idx as nat) + rest@,
{
    let mut e = String::new();
    push_entry_name(&mut e, what, idx);
    assert(e@ =~= entry_name(what@, idx as nat));
    e.append(rest);
    e
}

fn object_entry<'a>(v: &'a Value, what: &str, idx: usize) -> (r: Result<&'a Vec<Member>, String>)
    ensures
        match r {
            Ok(m) => entry_object(value_view(*v), what@, idx as nat) == Ok::<Seq<MemberV>, Name>(
                member_views(m@),
            ),
            Err(e) => entry_object(value_view(*v), what@, idx as nat) == Err::<
                Seq<MemberV>,
                Name,
            >(e@),
        },
{
    match v {
        Value::Obj(m) => Ok(m),
        _ => Err(entry_error(what, idx, " is not an object")),
    }
}

fn str_field(obj: &Vec<Member>, key: &str, idx: usize) -> (r: Result<String, String>)
    ensures
        match r {
            Ok(s) => text_field(member_views(obj@), key@, idx as nat) == Ok::<Name, Name>(s@),
            Err(e) => text_field(member_views(obj@), key@, idx as nat) == Err::<Name, Name>(e@),
        },
{
    if let Some(Value::Str(s)) = get(obj, key) {
        return Ok(s.clone());
    }
    let mut e = entry_error("events", idx, " is missing string field \"");
    e.append(key);
    e.append("\"");
    Err(e)
}

fn num_field(obj: &Vec<Member>, key: &str, idx: usize) -> (r: Result<usize, String>)
    ensures
        match r {
            Ok(n) => number_field(member_views(obj@), key@, idx as nat) == Ok::<nat, Name>(
                n as nat,
            ),
            Err(e) => number_field(member_views(obj@), key@, idx as nat) == Err::<nat, Name>(e@),
        },
{
    if let Some(Value::Num(n)) = get(obj, key) {
        return Ok(*n);
    }
    let mut e = entry_error("entry", idx, " is missing number field \"");
    e.append(key);
    e.append("\"");
    Err(e)
}

proof fn lemma_not_all_texts(items: Seq<ValueV>, n: int)
    requires
        0 <= n <= items.len(),
        all_texts(items.take(n)) is None,
    ensures
        all_texts(items) is None,
    decreases items.len() - n,
{
    if n < items.len() {
        assert(items.take(n + 1).drop_last() =~= items.take(n));
        lemma_not_all_texts(items, n + 1);
    } else {
        assert(items.take(n) =~= items);
    }
}

fn texts(items: &Vec<Value>) -> (r: Option<Vec<String>>)
    ensures
        match r {
            Some(v) => all_texts(value_views(items@)) == Some(names(v@)),
            None => all_texts(value_views(items@)) is None,
        },
{
    let ghost q = value_views(items@);
    let mut out: Vec<String> = Vec::new();
    let mut i: usize = 0;
    assert(q.take(0) =~= Seq::empty());
    assert(names(out@) =~= Seq::empty());
    while i < items.len()
        invariant
            q == value_views(items@),
            i <= items@.len(),
            all_texts(q.take(i as int)) == Some(names(out@)),
        decreases items@.len() - i,
    {
        assert(q.take(i + 1).drop_last() =~= q.take(i as int));
        assert(q.take(i + 1).last() == value_view(items@[i as int]));
        match &items[i] {
            Value::Str(s) => {
                let ghost before = names(out@);
                out.push(s.clone());
                assert(names(out@) =~= before.push(s@));
            },
            _ => {
                proof {
                    lemma_not_all_texts(q, i + 1);
                }
                return None;
            },
        }
        i = i + 1;
    }
    assert(q.take(i as int) =~= q);
    Some(out)
}

fn held_field(obj: &Vec<Member>, what: &str, idx: usize) -> (r: Result<Vec<String>, String>)
    ensures
        match r {
            Ok(v) => held_classes_field(member_views(obj@), what@, idx as nat) == Ok::<
                Seq<Name>,
                Name,
            >(names(v@)),
            Err(e) => held_classes_field(member_views(obj@), what@, idx as nat) == Err::<
                Seq<Name>,
                Name,
            >(e@),
        },
{
    if let Some(Value::Arr(items)) = get(obj, "held") {
        return match texts(items) {
            Some(v) => Ok(v),
            None => Err(entry_error(what, idx, ".held contains a non-string")),
        };
    }
    Err(entry_error(what, idx, " is missing \"held\""))
}

fn event_entry(v: &Value, idx: usize) -> (r: Result<Event, String>)
    ensures
        match r {
            Ok(x) => event_of(value_view(*v), idx as nat) == Ok::<EventV, Name>(x@),
            Err(e) => event_of(value_view(*v), idx as nat) == Err::<EventV, Name>(e@),
        },
{
    let obj = object_entry(v, "events", idx)?;
    let function = str_field(obj, "function", idx)?;
    let site = str_field(obj, "site", idx)?;
    let acquires = str_field(obj, "acquires", idx)?;
    let held = held_field(obj, "events", idx)?;
    Ok(Event { function, site, held, acquires })
}

fn call_entry(v: &Value, idx: usize) -> (r: Result<Link, String>)
    ensures
        match r {
            Ok(x) => call_of(value_view(*v), idx as nat) == Ok::<LinkV, Name>(x@),
            Err(e) => call_of(value_view(*v), idx as nat) == Err::<LinkV, Name>(e@),
        },
{
    let obj = object_entry(v, "calls", idx)?;
    let source = str_field(obj, "function", idx)?;
    let target = str_field(obj, "callee", idx)?;
    let held = held_field(obj, "calls", idx)?;
    Ok(Link { source, target, held })
}

fn param_call_entry(v: &Value, idx: usize) -> (r: Result<ParamCall, String>)
    ensures
        match r {
            Ok(x) => param_call_of(value_view(*v), idx as nat) == Ok::<ParamCallV, Name>(x@),
            Err(e) => param_call_of(value_view(*v), idx as nat) == Err::<ParamCallV, Name>(e@),
        },
{
    let obj = object_entry(v, "param_calls", idx)?;
    let function = str_field(obj, "function", idx)?;
    let param = num_field(obj, "param", idx)?;
    let held = held_field(obj, "param_calls", idx)?;
    Ok(ParamCall { function, param, held })
}

fn closure_arg_entry(v: &Value, idx: usize) -> (r: Result<ClosureArg, String>)
    ensures
        match r {
            Ok(x) => closure_arg_of(value_view(*v), idx as nat) == Ok::<ClosureArgV, Name>(x@),
            Err(e) => closure_arg_of(value_view(*v), idx as nat) == Err::<ClosureArgV, Name>(e@),
        },
{
    let obj = object_entry(v, "closure_args", idx)?;
    let callee = str_field(obj, "callee", idx)?;
    let param = num_field(obj, "param", idx)?;
    let closure = str_field(obj, "closure", idx)?;
    Ok(ClosureArg { callee, param, closure })
}

proof fn lemma_entries_error<T>(
    items: Seq<ValueV>,
    f: spec_fn(ValueV, nat) -> Result<T, Name>,
    n: int,
)
    requires
        0 <= n <= items.len(),
        entries(items.take(n), f) is Err,
    ensures
        entries(items, f) == entries(items.take(n), f),
    decreases items.len() - n,
{
    if n < items.len() {
        assert(items.take(n + 1).drop_last() =~= items.take(n));
        lemma_entries_error(items, f, n + 1);
    } else {
        assert(items.take(n) =~= items);
    }
}

fn event_list(items: &Vec<Value>) -> (r: Result<Vec<Event>, String>)
    ensures
        match r {
            Ok(v) => entries(value_views(items@), |v: ValueV, i: nat| event_of(v, i)) == Ok::<
                Seq<EventV>,
                Name,
            >(event_views(v@)),
            Err(e) => entries(value_views(items@), |v: ValueV, i: nat| event_of(v, i)) == Err::<
                Seq<EventV>,
                Name,
            >(e@),
        },
{
    let ghost f = |v: ValueV, i: nat| event_of(v, i);
    let ghost q = value_views(items@);
    let mut out: Vec<Event> = Vec::new();
    let mut i: usize = 0;
    assert(q.take(0) =~= Seq::empty());
    assert(event_views(out@) =~= Seq::empty());
    while i < items.len()
        invariant
            f == (|v: ValueV, i: nat| event_of(v, i)),
            q == value_views(items@),
            i <= items@.len(),
            entries(q.take(i as int), f) == Ok::<Seq<EventV>, Name>(event_views(out@)),
        decreases items@.len() - i,
    {
        assert(q.take(i + 1).drop_last() =~= q.take(i as int));
        assert(q.take(i + 1).last() == value_view(items@[i as int]));
        match event_entry(&items[i], i) {
            Ok(x) => {
                let ghost before = event_views(out@);
                out.push(x);
                assert(event_views(out@) =~= before.push(x@));
            },
            Err(e) => {
                proof {
                    lemma_entries_error(q, f, i + 1);
                }
                return Err(e);
            },
        }
        i = i + 1;
    }
    assert(q.take(i as int) =~= q);
    Ok(out)
}

fn call_list(items: &Vec<Value>) -> (r: Result<Vec<Link>, String>)
    ensures
        match r {
            Ok(v) => entries(value_views(items@), |v: ValueV, i: nat| call_of(v, i)) == Ok::<
                Seq<LinkV>,
                Name,
            >(link_views(v@)),
            Err(e) => entries(value_views(items@), |v: ValueV, i: nat| call_of(v, i)) == Err::<
                Seq<LinkV>,
                Name,
            >(e@),
        },
{
    let ghost f = |v: ValueV, i: nat| call_of(v, i);
    let ghost q = value_views(items@);
    let mut out: Vec<Link> = Vec::new();
    let mut i: usize = 0;
    assert(q.take(0) =~= Seq::empty());
    assert(link_views(out@) =~= Seq::empty());
    while i < items.len()
        invariant
            f == (|v: ValueV, i: nat| call_of(v, i)),
            q == value_views(items@),
            i <= items@.len(),
            entries(q.take(i as int), f) == Ok::<Seq<LinkV>, Name>(link_views(out@)),
        decreases items@.len() - i,
    {
        assert(q.take(i + 1).drop_last() =~= q.take(i as int));
        assert(q.take(i + 1).last() == value_view(items@[i as int]));
        match call_entry(&items[i], i) {
            Ok(x) => {
                let ghost before = link_views(out@);
                out.push(x);
                assert(link_views(out@) =~= before.push(x@));
            },
            Err(e) => {
                proof {
                    lemma_entries_error(q, f, i + 1);
                }
                return Err(e);
            },
        }
        i = i + 1;
    }
    assert(q.take(i as int) =~= q);
    Ok(out)
}

fn param_call_list(items: &Vec<Value>) -> (r: Result<Vec<ParamCall>, String>)
    ensures
        match r {
            Ok(v) => entries(value_views(items@), |v: ValueV, i: nat| param_call_of(v, i)) == Ok::<
                Seq<ParamCallV>,
                Name,
            >(param_call_views(v@)),
            Err(e) => entries(value_views(items@), |v: ValueV, i: nat| param_call_of(v, i)) == Err::<
                Seq<ParamCallV>,
                Name,
            >(e@),
        },
{
    let ghost f = |v: ValueV, i: nat| param_call_of(v, i);
    let ghost q = value_views(items@);
    let mut out: Vec<ParamCall> = Vec::new();
    let mut i: usize = 0;
    assert(q.take(0) =~= Seq::empty());
    assert(param_call_views(out@) =~= Seq::empty());
    while i < items.len()
        invariant
            f == (|v: ValueV, i: nat| param_call_of(v, i)),
            q == value_views(items@),
            i <= items@.len(),
            entries(q.take(i as int), f) == Ok::<Seq<ParamCallV>, Name>(param_call_views(out@)),
        decreases items@.len() - i,
    {
        assert(q.take(i + 1).drop_last() =~= q.take(i as int));
        assert(q.take(i + 1).last() == value_view(items@[i as int]));
        match param_call_entry(&items[i], i) {
            Ok(x) => {
                let ghost before = param_call_views(out@);
                out.push(x);
                assert(param_call_views(out@) =~= before.push(x@));
            },
            Err(e) => {
                proof {
                    lemma_entries_error(q, f, i + 1);
                }
                return Err(e);
            },
        }
        i = i + 1;
    }
    assert(q.take(i as int) =~= q);
    Ok(out)
}

fn closure_arg_list(items: &Vec<Value>) -> (r: Result<Vec<ClosureArg>, String>)
    ensures
        match r {
            Ok(v) => entries(value_views(items@), |v: ValueV, i: nat| closure_arg_of(v, i)) == Ok::<
                Seq<ClosureArgV>,
                Name,
            >(closure_arg_views(v@)),
            Err(e) => entries(value_views(items@), |v: ValueV, i: nat| closure_arg_of(v, i)) == Err::<
                Seq<ClosureArgV>,
                Name,
            >(e@),
        },
{
    let ghost f = |v: ValueV, i: nat| closure_arg_of(v, i);
    let ghost q = value_views(items@);
    let mut out: Vec<ClosureArg> = Vec::new();
    let mut i: usize = 0;
    assert(q.take(0) =~= Seq::empty());
    assert(closure_arg_views(out@) =~= Seq::empty());
    while i < items.len()
        invariant
            f == (|v: ValueV, i: nat| closure_arg_of(v, i)),
            q == value_views(items@),
            i <= items@.len(),
            entries(q.take(i as int), f) == Ok::<Seq<ClosureArgV>, Name>(closure_arg_views(out@)),
        decreases items@.len() - i,
    {
        assert(q.take(i + 1).drop_last() =~= q.take(i as int));
        assert(q.take(i + 1).last() == value_view(items@[i as int]));
        match closure_arg_entry(&items[i], i) {
            Ok(x) => {
                let ghost before = closure_arg_views(out@);
                out.push(x);
                assert(closure_arg_views(out@) =~= before.push(x@));
            },
            Err(e) => {
                proof {
                    lemma_entries_error(q, f, i + 1);
                }
                return Err(e);
            },
        }
        i = i + 1;
    }
    assert(q.take(i as int) =~= q);
    Ok(out)
}

proof fn lemma_counts_error(members: Seq<MemberV>, n: int)
    requires
        0 <= n <= members.len(),
        counts_in(members.take(n)) is Err,
    ensures
        counts_in(members) == counts_in(members.take(n)),
    decreases members.len() - n,
{
    if n < members.len() {
        assert(members.take(n + 1).drop_last() =~= members.take(n));
        lemma_counts_error(members, n + 1);
    } else {
        assert(members.take(n) =~= members);
    }
}

fn count_list(members: &Vec<Member>) -> (r: Result<NameMap<usize>, String>)
    ensures
        match r {
            Ok(m) => m.wf() && counts_in(member_views(members@)) == Ok::<
                Map<Name, usize>,
                Name,
            >(m@),
            Err(e) => counts_in(member_views(members@)) == Err::<Map<Name, usize>, Name>(e@),
        },
{
    let ghost q = member_views(members@);
    let mut out: NameMap<usize> = NameMap::new();
    let mut i: usize = 0;
    assert(q.take(0) =~= Seq::empty());
    while i < members.len()
        invariant
            q == member_views(members@),
            i <= members@.len(),
            out.wf(),
            counts_in(q.take(i as int)) == Ok::<Map<Name, usize>, Name>(out@),
        decreases members@.len() - i,
    {
        assert(q.take(i + 1).drop_last() =~= q.take(i as int));
        let m = &members[i];
        assert(q.take(i + 1).last() == (MemberV { key: m.key@, value: value_view(m.value) }));
        match &m.value {
            Value::Num(n) => {
                let _ = out.insert(m.key.clone(), *n);
            },
            _ => {
                proof {
                    lemma_counts_error(q, i + 1);
                }
                let mut e = "class_instances[\"".to_string();
                e.append(m.key.as_str());
                e.append("\"] is not a number");
                return Err(e);
            },
        }
        i = i + 1;
    }
    assert(q.take(i as int) =~= q);
    Ok(out)
}

/// Appends the calls that the parameter call `p` stands for.
fn resolve(p: &ParamCall, args: &Vec<ClosureArg>, links: &mut Vec<Link>)
    ensures
        link_views(final(links)@) == link_views(old(links)@) + passed(
            p@,
            closure_arg_views(args@),
        ).map_values(|c: Name| LinkV { source: p@.function, target: c, held: p@.held }),
{
    let ghost start = link_views(links@);
    let ghost q = closure_arg_views(args@);
    let ghost f = |c: Name| LinkV { source: p@.function, target: c, held: p@.held };
    let mut i: usize = 0;
    assert(q.take(0) =~= Seq::empty());
    assert(start + passed(p@, q.take(0)).map_values(f) =~= start);
    while i < args.len()
        invariant
            q == closure_arg_views(args@),
            f == (|c: Name| LinkV { source: p@.function, target: c, held: p@.held }),
            i <= args@.len(),
            link_views(links@) == start + passed(p@, q.take(i as int)).map_values(f),
        decreases args@.len() - i,
    {
        let a = &args[i];
        assert(q.take(i + 1).drop_last() =~= q.take(i as int));
        assert(q.take(i + 1).last() == a@);
        if str_eq(a.callee.as_str(), p.function.as_str()) && a.param == p.param {
            let ghost before = link_views(links@);
            let l = Link {
                source: p.function.clone(),
                target: a.closure.clone(),
                held: clone_names(&p.held),
            };
            assert(l@ == f(a@.closure));
            links.push(l);
            assert(link_views(links@) =~= before.push(l@));
            assert(passed(p@, q.take(i + 1)).map_values(f) =~= passed(
                p@,
                q.take(i as int),
            ).map_values(f).push(l@));
            assert(link_views(links@) =~= start + passed(p@, q.take(i + 1)).map_values(f));
        }
        i = i + 1;
    }
    assert(q.take(i as int) =~= q);
}

/// Appends the calls that all parameter calls stand for.
fn resolve_all(params: &Vec<ParamCall>, args: &Vec<ClosureArg>, links: &mut Vec<Link>)
    ensures
        link_views(final(links)@) == link_views(old(links)@) + resolved(
            param_call_views(params@),
            closure_arg_views(args@),
        ),
{
    let ghost start = link_views(links@);
    let ghost ps = param_call_views(params@);
    let ghost q = closure_arg_views(args@);
    let mut i: usize = 0;
    assert(ps.take(0) =~= Seq::empty());
    assert(start + resolved(ps.take(0), q) =~= start);
    while i < params.len()
        invariant
            ps == param_call_views(params@),
            q == closure_arg_views(args@),
            i <= params@.len(),
            link_views(links@) == start + resolved(ps.take(i as int), q),
        decreases params@.len() - i,
    {
        assert(ps.take(i + 1).drop_last() =~= ps.take(i as int));
        assert(ps.take(i + 1).last() == params@[i as int]@);
        resolve(&params[i], args, links);
        i = i + 1;
        assert(link_views(links@) =~= start + resolved(ps.take(i as int), q));
    }
    assert(ps.take(i as int) =~= ps);
}

/// Adds the classes that callers may hold to those held at each event.
fn widen(events: Vec<Event>, m: &NameMap<Vec<String>>) -> (r: Vec<Event>)
    requires
        m.wf(),
    ensures
        event_views(r@) == widened(event_views(events@), sets(m@)),
{
    let ghost evs = event_views(events@);
    let mut out: Vec<Event> = Vec::new();
    let mut i: usize = 0;
    while i < events.len()
        invariant
            evs == event_views(events@),
            m.wf(),
            i <= events@.len(),
            out@.len() == i,
            forall|k: int|
                0 <= k < i ==> (#[trigger] out@[k])@ == widened(evs, sets(m@))[k],
        decreases events@.len() - i,
    {
        let e = &events[i];
        let extra = inherited(m, e.function.as_str());
        let mut held = clone_names(&e.held);
        let _ = append_new(&mut held, &extra);
        assert(evs[i as int] == e@);
        out.push(
            Event {
                function: e.function.clone(),
                site: e.site.clone(),
                held,
                acquires: e.acquires.clone(),
            },
        );
        i = i + 1;
    }
    assert(event_views(out@) =~= widened(evs, sets(m@)));
    out
}

/// Drops the critical section from what is held where it is entered.
fn drop_reentry(events: Vec<Event>) -> (r: Vec<Event>)
    ensures
        event_views(r@) == reentered(event_views(events@)),
{
    let ghost evs = event_views(events@);
    let mut out: Vec<Event> = Vec::new();
    let mut i: usize = 0;
    while i < events.len()
        invariant
            evs == event_views(events@),
            i <= events@.len(),
            out@.len() == i,
            forall|k: int| 0 <= k < i ==> (#[trigger] out@[k])@ == reentered(evs)[k],
        decreases events@.len() - i,
    {
        let e = &events[i];
        assert(evs[i as int] == e@);
        let held = if str_eq(e.acquires.as_str(), "<critical-section>") {
            names_without(&e.held, "<critical-section>")
        } else {
            clone_names(&e.held)
        };
        out.push(
            Event {
                function: e.function.clone(),
                site: e.site.clone(),
                held,
                acquires: e.acquires.clone(),
            },
        );
        i = i + 1;
    }
    assert(event_views(out@) =~= reentered(evs));
    out
}

/// The strings of `v` without `x`.
pub fn names_without(v: &Vec<String>, x: &str) -> (r: Vec<String>)
    ensures
        names(r@) == without(names(v@), x@),
{
    let ghost q = names(v@);
    let mut out: Vec<String> = Vec::new();
    let mut i: usize = 0;
    assert(q.take(0) =~= Seq::empty());
    assert(names(out@) =~= Seq::empty());
    while i < v.len()
        invariant
            q == names(v@),
            i <= v@.len(),
            names(out@) == without(q.take(i as int), x@),
        decreases v@.len() - i,
    {
        assert(q.take(i + 1).drop_last() =~= q.take(i as int));
        assert(q[i as int] == v@[i as int]@);
        if !str_eq(v[i].as_str(), x) {
            let ghost before = names(out@);
            out.push(v[i].clone());
            assert(names(out@) =~= before.push(q[i as int]));
        }
        i = i + 1;
    }
    assert(q.take(i as int) =~= q);
    out
}

/// Gives every class of the events that has no count the count two.
fn fill_counts(counts: &mut NameMap<usize>, events: &Vec<Event>)
    requires
        old(counts).wf(),
    ensures
        final(counts).wf(),
        final(counts)@ == counted(old(counts)@, event_views(events@)),
{
    let ghost start = counts@;
    let ghost evs = event_views(events@);
    let mut i: usize = 0;
    assert(evs.take(0) =~= Seq::empty());
    assert(counts@ =~= counted(start, evs.take(0)));
    while i < events.len()
        invariant
            evs == event_views(events@),
            i <= events@.len(),
            counts.wf(),
            counts@ == counted(start, evs.take(i as int)),
        decreases events@.len() - i,
    {
        let e = &events[i];
        let ghost prior = counts@;
        let ghost held = e@.held;
        counts.or_insert(e.acquires.as_str(), 2);
        let mut j: usize = 0;
        while j < e.held.len()
            invariant
                held == names(e.held@),
                j <= e.held@.len(),
                counts.wf(),
                forall|c: Name| #[trigger]
                    counts@.contains_key(c) <==> prior.contains_key(c) || c == e@.acquires
                        || held.take(j as int).contains(c),
                forall|c: Name| #[trigger]
                    counts@.contains_key(c) ==> counts@[c] == if prior.contains_key(c) {
                        prior[c]
                    } else {
                        2
                    },
            decreases e.held@.len() - j,
        {
            let ghost before = counts@;
            counts.or_insert(e.held[j].as_str(), 2);
            proof {
                assert(held.take(j + 1) =~= held.take(j as int).push(held[j as int]));
                assert forall|c: Name| held.take(j + 1).contains(c) == (held.take(
                    j as int,
                ).contains(c) || c == held[j as int]) by {
                    lemma_push_contains(held.take(j as int), held[j as int], c);
                }
            }
            j = j + 1;
        }
        proof {
            assert(held.take(j as int) =~= held);
            assert(evs.take(i + 1).drop_last() =~= evs.take(i as int));
            assert(evs.take(i + 1).last() == e@);
            let m = mentioned(evs.take(i as int));
            assert forall|c: Name| mentioned(evs.take(i + 1)).contains(c) == (m.contains(c) || c
                == e@.acquires || held.contains(c)) by {
                lemma_concat_contains(m.push(e@.acquires), held, c);
                lemma_push_contains(m, e@.acquires, c);
            }
            assert(counts@ =~= counted(start, evs.take(i + 1)));
        }
        i = i + 1;
    }
    assert(evs.take(i as int) =~= evs);
}

/// What is held at a call.
fn held_there(held: &Vec<String>, m: &NameMap<Vec<String>>, f: &str) -> (r: Vec<String>)
    requires
        m.wf(),
    ensures
        names(r@) == effective(names(held@), sets(m@), f@),
{
    let mut all = clone_names(held);
    append_all(&mut all, &inherited(m, f));
    all
}

/// Whether some callable passed where `p` calls its parameter is not known.
fn callee_unknown(p: &ParamCall, args: &Vec<ClosureArg>) -> (r: bool)
    ensures
        r == unknown_callee(p@, closure_arg_views(args@)),
{
    let ghost q = closure_arg_views(args@);
    let mut any_named: bool = false;
    let mut any_unknown: bool = false;
    let mut i: usize = 0;
    assert(q.take(0) =~= Seq::empty());
    while i < args.len()
        invariant
            q == closure_arg_views(args@),
            i <= args@.len(),
            any_named <==> exists|k: int|
                0 <= k < passed(p@, q.take(i as int)).len() && #[trigger] passed(
                    p@,
                    q.take(i as int),
                )[k] != "<unknown>"@,
            any_unknown <==> passed(p@, q.take(i as int)).contains("<unknown>"@),
        decreases args@.len() - i,
    {
        let a = &args[i];
        let ghost before = passed(p@, q.take(i as int));
        let ghost after = passed(p@, q.take(i + 1));
        assert(q.take(i + 1).drop_last() =~= q.take(i as int));
        assert(q.take(i + 1).last() == a@);
        if str_eq(a.callee.as_str(), p.function.as_str()) && a.param == p.param {
            proof {
                assert(after == before.push(a@.closure));
                lemma_push_contains(before, a@.closure, "<unknown>"@);
                assert forall|k: int| 0 <= k < before.len() implies after[k] == before[k] by {}
                assert(after[before.len() as int] == a@.closure);
                if any_named {
                    let k = choose|k: int| 0 <= k < before.len() && before[k] != "<unknown>"@;
                    assert(after[k] != "<unknown>"@);
                }
            }
            if str_eq(a.closure.as_str(), "<unknown>") {
                any_unknown = true;
            } else {
                any_named = true;
            }
        }
        i = i + 1;
    }
    assert(q.take(i as int) =~= q);
    !any_named || any_unknown
}

proof fn lemma_unresolved_stays(
    params: Seq<ParamCallV>,
    args: Seq<ClosureArgV>,
    m: Entry,
    n: int,
)
    requires
        0 <= n <= params.len(),
        unresolved_param(params.take(n), args, m) is Some,
    ensures
        unresolved_param(params, args, m) == unresolved_param(params.take(n), args, m),
    decreases params.len() - n,
{
    if n < params.len() {
        assert(params.take(n + 1).drop_last() =~= params.take(n));
        lemma_unresolved_stays(params, args, m, n + 1);
    } else {
        assert(params.take(n) =~= params);
    }
}

fn unresolved_param_call(
    params: &Vec<ParamCall>,
    args: &Vec<ClosureArg>,
    m: &NameMap<Vec<String>>,
) -> (r: Option<String>)
    requires
        m.wf(),
    ensures
        opt_name(r) == unresolved_param(
            param_call_views(params@),
            closure_arg_views(args@),
            sets(m@),
        ),
{
    let ghost ps = param_call_views(params@);
    let ghost q = closure_arg_views(args@);
    let mut i: usize = 0;
    assert(ps.take(0) =~= Seq::empty());
    while i < params.len()
        invariant
            ps == param_call_views(params@),
            q == closure_arg_views(args@),
            m.wf(),
            i <= params@.len(),
            unresolved_param(ps.take(i as int), q, sets(m@)) is None,
        decreases params@.len() - i,
    {
        let p = &params[i];
        assert(ps.take(i + 1).drop_last() =~= ps.take(i as int));
        assert(ps.take(i + 1).last() == p@);
        let held = held_there(&p.held, m, p.function.as_str());
        if held.len() > 0 && callee_unknown(p, args) {
            let mut r = p.function.clone();
            r.append(" calls its parameter #");
            push_dec(&mut r, p.param);
            r.append(" while holding ");
            push_list(&mut r, &held);
            r.append(", and not every callable passed there could be resolved");
            proof {
                lemma_unresolved_stays(ps, q, sets(m@), i + 1);
            }
            return Some(r);
        }
        i = i + 1;
    }
    assert(ps.take(i as int) =~= ps);
    None
}

fn opaque_entry(v: &Value, idx: usize, m: &NameMap<Vec<String>>) -> (r: Result<
    Option<String>,
    String,
>)
    requires
        m.wf(),
    ensures
        match r {
            Ok(x) => opaque_reason(value_view(*v), idx as nat, sets(m@)) == Ok::<
                Option<Name>,
                Name,
            >(opt_name(x)),
            Err(e) => opaque_reason(value_view(*v), idx as nat, sets(m@)) == Err::<
                Option<Name>,
                Name,
            >(e@),
        },
{
    let obj = object_entry(v, "opaque_calls", idx)?;
    let f = str_field(obj, "function", idx)?;
    let site = str_field(obj, "site", idx)?;
    let own = held_field(obj, "opaque_calls", idx)?;
    let held = held_there(&own, m, f.as_str());
    if held.len() == 0 {
        return Ok(None);
    }
    let mut r =
        "unresolved indirect call (fn pointer, trait object or unnameable callable) at ".to_string();
    r.append(site.as_str());
    r.append(" in ");
    r.append(f.as_str());
    r.append(" while holding ");
    push_list(&mut r, &held);
    Ok(Some(r))
}

proof fn lemma_opaque_stays(items: Seq<ValueV>, m: Entry, n: int)
    requires
        0 <= n <= items.len(),
        opaque_under_lock(items.take(n), m) != Ok::<Option<Name>, Name>(None),
    ensures
        opaque_under_lock(items, m) == opaque_under_lock(items.take(n), m),
    decreases items.len() - n,
{
    if n < items.len() {
        assert(items.take(n + 1).drop_last() =~= items.take(n));
        lemma_opaque_stays(items, m, n + 1);
    } else {
        assert(items.take(n) =~= items);
    }
}

fn opaque_call(items: &Vec<Value>, m: &NameMap<Vec<String>>) -> (r: Result<Option<String>, String>)
    requires
        m.wf(),
    ensures
        match r {
            Ok(x) => opaque_under_lock(value_views(items@), sets(m@)) == Ok::<Option<Name>, Name>(
                opt_name(x),
            ),
            Err(e) => opaque_under_lock(value_views(items@), sets(m@)) == Err::<
                Option<Name>,
                Name,
            >(e@),
        },
{
    let ghost q = value_views(items@);
    let mut i: usize = 0;
    assert(q.take(0) =~= Seq::empty());
    while i < items.len()
        invariant
            q == value_views(items@),
            m.wf(),
            i <= items@.len(),
            opaque_under_lock(q.take(i as int), sets(m@)) == Ok::<Option<Name>, Name>(None),
        decreases items@.len() - i,
    {
        assert(q.take(i + 1).drop_last() =~= q.take(i as int));
        assert(q.take(i + 1).last() == value_view(items@[i as int]));
        let r = opaque_entry(&items[i], i, m);
        match r {
            Ok(None) => {},
            done => {
                proof {
                    lemma_opaque_stays(q, sets(m@), i + 1);
                }
                return done;
            },
        }
        i = i + 1;
    }
    assert(q.take(i as int) =~= q);
    Ok(None)
}

/// The lists that a document holds.
struct Records {
    events: Vec<Event>,
    counts: NameMap<usize>,
    calls: Vec<Link>,
    params: Vec<ParamCall>,
    args: Vec<ClosureArg>,
}

impl Records {
    spec fn value(&self) -> RecordsV {
        RecordsV {
            events: event_views(self.events@),
            counts: self.counts@,
            calls: link_views(self.calls@),
            params: param_call_views(self.params@),
            args: closure_arg_views(self.args@),
        }
    }
}

fn calls_field(top: &Vec<Member>) -> (r: Result<Vec<Link>, String>)
    ensures
        match r {
            Ok(v) => optional_entries(
                member_views(top@),
                "calls"@,
                |v: ValueV, i: nat| call_of(v, i),
            ) == Ok::<Seq<LinkV>, Name>(link_views(v@)),
            Err(e) => optional_entries(
                member_views(top@),
                "calls"@,
                |v: ValueV, i: nat| call_of(v, i),
            ) == Err::<Seq<LinkV>, Name>(e@),
        },
{
    if let Some(Value::Arr(items)) = get(top, "calls") {
        return call_list(items);
    }
    let none: Vec<Link> = Vec::new();
    assert(link_views(none@) =~= Seq::empty());
    Ok(none)
}

fn param_calls_field(top: &Vec<Member>) -> (r: Result<Vec<ParamCall>, String>)
    ensures
        match r {
            Ok(v) => optional_entries(
                member_views(top@),
                "param_calls"@,
                |v: ValueV, i: nat| param_call_of(v, i),
            ) == Ok::<Seq<ParamCallV>, Name>(param_call_views(v@)),
            Err(e) => optional_entries(
                member_views(top@),
                "param_calls"@,
                |v: ValueV, i: nat| param_call_of(v, i),
            ) == Err::<Seq<ParamCallV>, Name>(e@),
        },
{
    if let Some(Value::Arr(items)) = get(top, "param_calls") {
        return param_call_list(items);
    }
    let none: Vec<ParamCall> = Vec::new();
    assert(param_call_views(none@) =~= Seq::empty());
    Ok(none)
}

fn closure_args_field(top: &Vec<Member>) -> (r: Result<Vec<ClosureArg>, String>)
    ensures
        match r {
            Ok(v) => optional_entries(
                member_views(top@),
                "closure_args"@,
                |v: ValueV, i: nat| closure_arg_of(v, i),
            ) == Ok::<Seq<ClosureArgV>, Name>(closure_arg_views(v@)),
            Err(e) => optional_entries(
                member_views(top@),
                "closure_args"@,
                |v: ValueV, i: nat| closure_arg_of(v, i),
            ) == Err::<Seq<ClosureArgV>, Name>(e@),
        },
{
    if let Some(Value::Arr(items)) = get(top, "closure_args") {
        return closure_arg_list(items);
    }
    let none: Vec<ClosureArg> = Vec::new();
    assert(closure_arg_views(none@) =~= Seq::empty());
    Ok(none)
}

fn events_field(top: &Vec<Member>) -> (r: Result<Vec<Event>, String>)
    ensures
        match r {
            Ok(v) => events_of(member_views(top@)) == Ok::<Seq<EventV>, Name>(event_views(v@)),
            Err(e) => events_of(member_views(top@)) == Err::<Seq<EventV>, Name>(e@),
        },
{
    if let Some(Value::Arr(items)) = get(top, "events") {
        return event_list(items);
    }
    Err("top-level \"events\" array is missing".to_string())
}

fn counts_field(top: &Vec<Member>) -> (r: Result<NameMap<usize>, String>)
    ensures
        match r {
            Ok(m) => m.wf() && counts_of(member_views(top@)) == Ok::<Map<Name, usize>, Name>(m@),
            Err(e) => counts_of(member_views(top@)) == Err::<Map<Name, usize>, Name>(e@),
        },
{
    if let Some(Value::Obj(members)) = get(top, "class_instances") {
        return count_list(members);
    }
    Ok(NameMap::new())
}

fn records(top: &Vec<Member>) -> (r: Result<Records, String>)
    ensures
        match r {
            Ok(x) => x.counts.wf() && records_of(member_views(top@)) == Ok::<RecordsV, Name>(
                x.value(),
            ),
            Err(e) => records_of(member_views(top@)) == Err::<RecordsV, Name>(e@),
        },
{
    let events = events_field(top)?;
    let counts = counts_field(top)?;
    let calls = calls_field(top)?;
    let params = param_calls_field(top)?;
    let args = closure_args_field(top)?;
    Ok(Records { events, counts, calls, params, args })
}

fn unresolved_call(
    top: &Vec<Member>,
    params: &Vec<ParamCall>,
    args: &Vec<ClosureArg>,
    m: &NameMap<Vec<String>>,
) -> (r: Result<Option<String>, String>)
    requires
        m.wf(),
    ensures
        match r {
            Ok(x) => unresolved(
                member_views(top@),
                param_call_views(params@),
                closure_arg_views(args@),
                sets(m@),
            ) == Ok::<Option<Name>, Name>(opt_name(x)),
            Err(e) => unresolved(
                member_views(top@),
                param_call_views(params@),
                closure_arg_views(args@),
                sets(m@),
            ) == Err::<Option<Name>, Name>(e@),
        },
{
    match unresolved_param_call(params, args, m) {
        Some(r) => Ok(Some(r)),
        None => {
            if let Some(Value::Arr(items)) = get(top, "opaque_calls") {
                return opaque_call(items, m);
            }
            Ok(None)
        },
    }
}

/// Reads the JSON emitted by the MIR front end into a solver-ready [`Program`].
///
/// The MIR front end works body by body: a guard held across a call is
/// invisible inside the callee. It therefore also emits call edges (caller,
/// callee, held at the call), and what a function's callers may hold is added
/// to what its events hold. An indirect call under a held lock whose callee is
/// not known makes the program incomplete.
pub fn parse(src: &str) -> (r: Result<Program, String>)
    ensures
        match r {
            Ok(p) => p.wf() && reading(src@) == Ok::<ProgramV, Name>(p@),
            Err(e) => reading(src@) == Err::<ProgramV, Name>(e@),
        },
{
    let top = parse_document(src)?;
    let lists = records(&top)?;
    let Records { events, counts, calls, params, args } = lists;
    let mut counts = counts;
    let mut links = calls;
    resolve_all(&params, &args, &mut links);
    let m = inheritance(&links);
    let reason = unresolved_call(&top, &params, &args, &m)?;
    let all = widen(events, &m);
    fill_counts(&mut counts, &all);
    let name = match get(&top, "name") {
        Some(Value::Str(n)) => n.clone(),
        _ => "events".to_string(),
    };
    let incomplete = match get(&top, "incomplete") {
        Some(Value::Str(why)) => Some(why.clone()),
        _ => reason,
    };
    Ok(Program { name, events: drop_reentry(all), class_instances: counts, incomplete })
}

pub proof fn lemma_without(q: Seq<Name>, x: Name, y: Name)
    ensures
        without(q, x).contains(y) <==> q.contains(y) && y != x,
    decreases q.len(),
{
    if q.len() > 0 {
        let r = q.drop_last();
        lemma_without(r, x, y);
        assert(q =~= r.push(q.last()));
        lemma_push_contains(r, q.last(), y);
        lemma_push_contains(without(r, x), q.last(), y);
    }
}

/// An event holds what it held in its own function and what is held at the first
/// of a chain of calls that leads to its function, and nothing else; only the
/// critical section is left out where the critical section is entered.
pub proof fn events_hold_what_callers_hold(top: Seq<MemberV>, r: RecordsV, p: ProgramV, i: int, x: Name)
    requires
        records_of(top) == Ok::<RecordsV, Name>(r),
        program_of(top) == Ok::<ProgramV, Name>(p),
        0 <= i < r.events.len(),
    ensures
        p.events.len() == r.events.len(),
        p.events[i].function == r.events[i].function,
        p.events[i].site == r.events[i].site,
        p.events[i].acquires == r.events[i].acquires,
        p.events[i].held.contains(x) <==> {
            &&& r.events[i].held.contains(x) || carried(
                r.calls + resolved(r.params, r.args),
                r.events[i].function,
                x,
            )
            &&& !(r.events[i].acquires == critical_section() && x == critical_section())
        },
{
    let m = inheritance_of(r);
    let e = r.events[i];
    inherited_iff_carried(r.calls + resolved(r.params, r.args), e.function, x);
    lemma_add_new(e.held, may_of(m, e.function));
    let w = widened(r.events, m)[i];
    assert(w.held.contains(x) <==> e.held.contains(x) || may_of(m, e.function).contains(x));
    lemma_without(w.held, critical_section(), x);
}

/// The critical section is never ordered before itself.
pub proof fn critical_section_is_reentrant(top: Seq<MemberV>, p: ProgramV)
    requires
        program_of(top) == Ok::<ProgramV, Name>(p),
    ensures
        !has_edge(p.events, critical_section(), critical_section()),
{
    let r = records_of(top)->Ok_0;
    if has_edge(p.events, critical_section(), critical_section()) {
        let i = choose|i: int|
            0 <= i < p.events.len() && (#[trigger] p.events[i]).acquires == critical_section()
                && p.events[i].held.contains(critical_section());
        assert(p.events.len() == r.events.len());
        events_hold_what_callers_hold(top, r, p, i, critical_section());
    }
}

/// A document without a reason of its own is taken as complete only if, at every
/// parameter call with a lock held there or by a caller, some callable is passed
/// and every callable passed there has a name.
pub proof fn complete_means_resolved(top: Seq<MemberV>, r: RecordsV, p: ProgramV, i: int)
    requires
        records_of(top) == Ok::<RecordsV, Name>(r),
        program_of(top) == Ok::<ProgramV, Name>(p),
        p.incomplete is None,
        0 <= i < r.params.len(),
        effective(r.params[i].held, inheritance_of(r), r.params[i].function).len() > 0,
    ensures
        passed(r.params[i], r.args).len() > 0,
        !passed(r.params[i], r.args).contains("<unknown>"@),
{
    let m = inheritance_of(r);
    assert(unresolved_param(r.params, r.args, m) is None);
    lemma_all_resolved(r.params, r.args, m, i);
}

proof fn lemma_all_resolved(params: Seq<ParamCallV>, args: Seq<ClosureArgV>, m: Entry, i: int)
    requires
        unresolved_param(params, args, m) is None,
        0 <= i < params.len(),
        effective(params[i].held, m, params[i].function).len() > 0,
    ensures
        !unknown_callee(params[i], args),
    decreases params.len(),
{
    if i < params.len() - 1 {
        assert(params.drop_last()[i] == params[i]);
        lemma_all_resolved(params.drop_last(), args, m, i);
    }
}

/// A document is taken as complete only if no opaque call is made with a lock
/// held there or by a caller.
pub proof fn complete_means_not_opaque(
    top: Seq<MemberV>,
    r: RecordsV,
    p: ProgramV,
    items: Seq<ValueV>,
    i: int,
)
    requires
        records_of(top) == Ok::<RecordsV, Name>(r),
        program_of(top) == Ok::<ProgramV, Name>(p),
        p.incomplete is None,
        field(top, "opaque_calls"@) == Some(ValueV::Arr(items)),
        0 <= i < items.len(),
    ensures
        opaque_reason(items[i], i as nat, inheritance_of(r)) == Ok::<Option<Name>, Name>(None),
{
    lemma_none_opaque(items, inheritance_of(r), i);
}

proof fn lemma_none_opaque(items: Seq<ValueV>, m: Entry, i: int)
    requires
        opaque_under_lock(items, m) == Ok::<Option<Name>, Name>(None),
        0 <= i < items.len(),
    ensures
        opaque_reason(items[i], i as nat, m) == Ok::<Option<Name>, Name>(None),
    decreases items.len(),
{
    if i < items.len() - 1 {
        assert(items.drop_last()[i] == items[i]);
        lemma_none_opaque(items.drop_last(), m, i);
    }
}

}
