//! The document that the MIR front end writes and [`crate::events`] reads.

use vstd::prelude::*;

use crate::events::{
    all_texts, call_of, closure_arg_of, counted, counts_in, effective, entries, event_of,
    inheritance_of, lost_call, opaque_reason, opaque_under_lock, param_call_of, reading, records_of,
    reentered, unresolved_param, widened, ParamCall, ParamCallV, RecordsV,
};
use crate::inherit::{lemma_push_contains, Entry, Link, LinkV};
use crate::json::{
    field, find_key, member_views, read_document, value_view, value_views, Member, MemberV, Value,
    ValueV,
};
use crate::lint::scan::{ClosureArg, ClosureArgV, OpaqueCall, OpaqueCallV, OutV, ProgramOut};
use crate::model::{Event, EventV, ProgramV};
use crate::ordset::{ascending, lemma_sorted, lemma_sorted_set, sorted, NameSet};
use crate::print::{
    distinct_keys, document_text, print_document, proper, proper_items, proper_members,
    read_gives_back_what_was_written,
};
use crate::text::{lemma_lex_irreflexive, lex_lt, names, Name};

verus! {

pub open spec fn text_member(key: Name, s: Name) -> MemberV {
    MemberV { key, value: ValueV::Str(s) }
}

pub open spec fn number_member(key: Name, n: nat) -> MemberV {
    MemberV { key, value: ValueV::Num(n) }
}

/// A list of strings.
pub open spec fn texts_value(q: Seq<Name>) -> ValueV {
    ValueV::Arr(q.map_values(|s: Name| ValueV::Str(s)))
}

pub open spec fn held_member(q: Seq<Name>) -> MemberV {
    MemberV { key: "held"@, value: texts_value(q) }
}

pub open spec fn event_value(e: EventV) -> ValueV {
    ValueV::Obj(
        seq![
            text_member("function"@, e.function),
            text_member("site"@, e.site),
            text_member("acquires"@, e.acquires),
            held_member(e.held),
        ],
    )
}

pub open spec fn call_value(l: LinkV) -> ValueV {
    ValueV::Obj(
        seq![
            text_member("function"@, l.source),
            text_member("callee"@, l.target),
            held_member(l.held),
        ],
    )
}

pub open spec fn param_call_value(c: ParamCallV) -> ValueV {
    ValueV::Obj(
        seq![
            text_member("function"@, c.function),
            number_member("param"@, c.param),
            held_member(c.held),
        ],
    )
}

pub open spec fn closure_arg_value(a: ClosureArgV) -> ValueV {
    ValueV::Obj(
        seq![
            text_member("function"@, a.function),
            text_member("callee"@, a.callee),
            number_member("param"@, a.param),
            text_member("closure"@, a.closure),
        ],
    )
}

pub open spec fn opaque_call_value(c: OpaqueCallV) -> ValueV {
    ValueV::Obj(
        seq![
            text_member("function"@, c.function),
            text_member("site"@, c.site),
            held_member(c.held),
        ],
    )
}

/// For each class how many instances it has, in ascending order of the classes.
pub open spec fn counts_value(m: Map<Name, Set<Name>>) -> Seq<MemberV> {
    sorted(m.dom()).map_values(|c: Name| number_member(c, m[c].len()))
}

pub open spec fn list_member(key: Name, items: Seq<ValueV>) -> MemberV {
    MemberV { key, value: ValueV::Arr(items) }
}

/// The lists of the document.
pub open spec fn lists_of(out: OutV) -> Seq<MemberV> {
    seq![
        text_member("name"@, "mir"@),
        list_member("events"@, out.events.map_values(|e: EventV| event_value(e))),
        MemberV {
            key: "class_instances"@,
            value: ValueV::Obj(counts_value(out.class_instances)),
        },
        list_member("calls"@, out.calls.map_values(|l: LinkV| call_value(l))),
        list_member(
            "param_calls"@,
            out.param_calls.map_values(|c: ParamCallV| param_call_value(c)),
        ),
        list_member(
            "closure_args"@,
            out.closure_args.map_values(|a: ClosureArgV| closure_arg_value(a)),
        ),
        list_member(
            "opaque_calls"@,
            out.opaque_calls.map_values(|c: OpaqueCallV| opaque_call_value(c)),
        ),
    ]
}

/// The document.
pub open spec fn document_of(out: OutV) -> Seq<MemberV> {
    match out.incomplete {
        Some(r) => lists_of(out).push(text_member("incomplete"@, r)),
        None => lists_of(out),
    }
}

fn text_field_of(key: &str, s: &String) -> (r: Member)
    ensures
        r.key@ == key@,
        value_view(r.value) == ValueV::Str(s@),
{
    Member { key: key.to_string(), value: Value::Str(s.clone()) }
}

fn number_field_of(key: &str, n: usize) -> (r: Member)
    ensures
        r.key@ == key@,
        value_view(r.value) == ValueV::Num(n as nat),
{
    Member { key: key.to_string(), value: Value::Num(n) }
}

fn held_field_of(held: &Vec<String>) -> (r: Member)
    ensures
        r.key@ == "held"@,
        value_view(r.value) == texts_value(names(held@)),
{
    let mut items: Vec<Value> = Vec::new();
    let ghost q = names(held@).map_values(|s: Name| ValueV::Str(s));
    let mut i: usize = 0;
    while i < held.len()
        invariant
            q == names(held@).map_values(|s: Name| ValueV::Str(s)),
            i <= held@.len(),
            items@.len() == i,
            forall|k: int| 0 <= k < i ==> value_view(#[trigger] items@[k]) == q[k],
        decreases held@.len() - i,
    {
        items.push(Value::Str(held[i].clone()));
        i = i + 1;
    }
    assert(value_views(items@) =~= q);
    Member { key: "held".to_string(), value: Value::Arr(items) }
}

fn event_of_out(e: &Event) -> (r: Value)
    ensures
        value_view(r) == event_value(e@),
{
    let mut m: Vec<Member> = Vec::new();
    m.push(text_field_of("function", &e.function));
    m.push(text_field_of("site", &e.site));
    m.push(text_field_of("acquires", &e.acquires));
    m.push(held_field_of(&e.held));
    assert(member_views(m@) =~= event_value(e@)->Obj_0);
    Value::Obj(m)
}

fn call_of_out(l: &Link) -> (r: Value)
    ensures
        value_view(r) == call_value(l@),
{
    let mut m: Vec<Member> = Vec::new();
    m.push(text_field_of("function", &l.source));
    m.push(text_field_of("callee", &l.target));
    m.push(held_field_of(&l.held));
    assert(member_views(m@) =~= call_value(l@)->Obj_0);
    Value::Obj(m)
}

fn param_call_of_out(c: &ParamCall) -> (r: Value)
    ensures
        value_view(r) == param_call_value(c@),
{
    let mut m: Vec<Member> = Vec::new();
    m.push(text_field_of("function", &c.function));
    m.push(number_field_of("param", c.param));
    m.push(held_field_of(&c.held));
    assert(member_views(m@) =~= param_call_value(c@)->Obj_0);
    Value::Obj(m)
}

fn closure_arg_of_out(a: &ClosureArg) -> (r: Value)
    ensures
        value_view(r) == closure_arg_value(a@),
{
    let mut m: Vec<Member> = Vec::new();
    m.push(text_field_of("function", &a.function));
    m.push(text_field_of("callee", &a.callee));
    m.push(number_field_of("param", a.param));
    m.push(text_field_of("closure", &a.closure));
    assert(member_views(m@) =~= closure_arg_value(a@)->Obj_0);
    Value::Obj(m)
}

fn opaque_call_of_out(c: &OpaqueCall) -> (r: Value)
    ensures
        value_view(r) == opaque_call_value(c@),
{
    let mut m: Vec<Member> = Vec::new();
    m.push(text_field_of("function", &c.function));
    m.push(text_field_of("site", &c.site));
    m.push(held_field_of(&c.held));
    assert(member_views(m@) =~= opaque_call_value(c@)->Obj_0);
    Value::Obj(m)
}

fn list_field_of(key: &str, items: Vec<Value>) -> (r: Member)
    ensures
        r.key@ == key@,
        value_view(r.value) == ValueV::Arr(value_views(items@)),
{
    Member { key: key.to_string(), value: Value::Arr(items) }
}

fn event_items(out: &ProgramOut) -> (r: Vec<Value>)
    ensures
        value_views(r@) == out@.events.map_values(|e: EventV| event_value(e)),
{
    let mut items: Vec<Value> = Vec::new();
    let mut i: usize = 0;
    while i < out.events.len()
        invariant
            i <= out.events@.len(),
            items@.len() == i,
            forall|k: int|
                0 <= k < i ==> value_view(#[trigger] items@[k]) == event_value(out@.events[k]),
        decreases out.events@.len() - i,
    {
        items.push(event_of_out(&out.events[i]));
        i = i + 1;
    }
    assert(value_views(items@) =~= out@.events.map_values(|e: EventV| event_value(e)));
    items
}

fn call_items(out: &ProgramOut) -> (r: Vec<Value>)
    ensures
        value_views(r@) == out@.calls.map_values(|l: LinkV| call_value(l)),
{
    let mut items: Vec<Value> = Vec::new();
    let mut i: usize = 0;
    while i < out.calls.len()
        invariant
            i <= out.calls@.len(),
            items@.len() == i,
            forall|k: int|
                0 <= k < i ==> value_view(#[trigger] items@[k]) == call_value(out@.calls[k]),
        decreases out.calls@.len() - i,
    {
        items.push(call_of_out(&out.calls[i]));
        i = i + 1;
    }
    assert(value_views(items@) =~= out@.calls.map_values(|l: LinkV| call_value(l)));
    items
}

fn param_call_items(out: &ProgramOut) -> (r: Vec<Value>)
    ensures
        value_views(r@) == out@.param_calls.map_values(|c: ParamCallV| param_call_value(c)),
{
    let mut items: Vec<Value> = Vec::new();
    let mut i: usize = 0;
    while i < out.param_calls.len()
        invariant
            i <= out.param_calls@.len(),
            items@.len() == i,
            forall|k: int|
                0 <= k < i ==> value_view(#[trigger] items@[k]) == param_call_value(
                    out@.param_calls[k],
                ),
        decreases out.param_calls@.len() - i,
    {
        items.push(param_call_of_out(&out.param_calls[i]));
        i = i + 1;
    }
    assert(value_views(items@) =~= out@.param_calls.map_values(
        |c: ParamCallV| param_call_value(c),
    ));
    items
}

fn closure_arg_items(out: &ProgramOut) -> (r: Vec<Value>)
    ensures
        value_views(r@) == out@.closure_args.map_values(|a: ClosureArgV| closure_arg_value(a)),
{
    let mut items: Vec<Value> = Vec::new();
    let mut i: usize = 0;
    while i < out.closure_args.len()
        invariant
            i <= out.closure_args@.len(),
            items@.len() == i,
            forall|k: int|
                0 <= k < i ==> value_view(#[trigger] items@[k]) == closure_arg_value(
                    out@.closure_args[k],
                ),
        decreases out.closure_args@.len() - i,
    {
        items.push(closure_arg_of_out(&out.closure_args[i]));
        i = i + 1;
    }
    assert(value_views(items@) =~= out@.closure_args.map_values(
        |a: ClosureArgV| closure_arg_value(a),
    ));
    items
}

fn opaque_call_items(out: &ProgramOut) -> (r: Vec<Value>)
    ensures
        value_views(r@) == out@.opaque_calls.map_values(|c: OpaqueCallV| opaque_call_value(c)),
{
    let mut items: Vec<Value> = Vec::new();
    let mut i: usize = 0;
    while i < out.opaque_calls.len()
        invariant
            i <= out.opaque_calls@.len(),
            items@.len() == i,
            forall|k: int|
                0 <= k < i ==> value_view(#[trigger] items@[k]) == opaque_call_value(
                    out@.opaque_calls[k],
                ),
        decreases out.opaque_calls@.len() - i,
    {
        items.push(opaque_call_of_out(&out.opaque_calls[i]));
        i = i + 1;
    }
    assert(value_views(items@) =~= out@.opaque_calls.map_values(
        |c: OpaqueCallV| opaque_call_value(c),
    ));
    items
}

fn count_members(out: &ProgramOut) -> (r: Vec<Member>)
    requires
        out.wf(),
    ensures
        member_views(r@) == counts_value(out@.class_instances),
{
    let ghost keys = out.class_instances.key_seq();
    let ghost m = out@.class_instances;
    let mut set = NameSet::new();
    let mut i: usize = 0;
    assert(set@ =~= keys.take(0).to_set());
    while i < out.class_instances.keys.len()
        invariant
            keys == out.class_instances.key_seq(),
            i <= keys.len(),
            set.wf(),
            set@ == keys.take(i as int).to_set(),
        decreases keys.len() - i,
    {
        let _ = set.insert(out.class_instances.keys[i].as_str());
        proof {
            let r = keys.take(i as int);
            let x = keys[i as int];
            assert(keys.take(i + 1) =~= r.push(x));
            assert forall|y: Name| r.push(x).contains(y) == (r.contains(y) || x == y) by {
                lemma_push_contains(r, x, y);
            }
            assert(set@ =~= keys.take(i + 1).to_set());
        }
        i = i + 1;
    }
    assert(keys.take(i as int) =~= keys);
    assert(set@ =~= m.dom());
    let all = set.to_names();
    let ghost q = names(all@);
    proof {
        lemma_sorted(names(set.items@));
    }
    let mut members: Vec<Member> = Vec::new();
    let mut k: usize = 0;
    while k < all.len()
        invariant
            out.wf(),
            m == out@.class_instances,
            q == names(all@),
            q == sorted(m.dom()),
            q.to_set() == m.dom(),
            k <= all@.len(),
            members@.len() == k,
            forall|j: int|
                0 <= j < k ==> (#[trigger] members@[j]).key@ == q[j] && value_view(
                    members@[j].value,
                ) == ValueV::Num(m[q[j]].len()),
        decreases all@.len() - k,
    {
        assert(q[k as int] == all@[k as int]@);
        assert(q.to_set().contains(q[k as int]));
        let n: usize = match out.class_instances.get(all[k].as_str()) {
            Some(ids) => ids.len(),
            None => 0,
        };
        members.push(number_field_of(all[k].as_str(), n));
        k = k + 1;
    }
    assert(member_views(members@) =~= counts_value(m));
    members
}

/// The document for what the front end has found.
pub fn document(out: &ProgramOut) -> (r: Vec<Member>)
    requires
        out.wf(),
    ensures
        member_views(r@) == document_of(out@),
{
    let mut m: Vec<Member> = Vec::new();
    m.push(text_field_of("name", &"mir".to_string()));
    m.push(list_field_of("events", event_items(out)));
    m.push(
        Member { key: "class_instances".to_string(), value: Value::Obj(count_members(out)) },
    );
    m.push(list_field_of("calls", call_items(out)));
    m.push(list_field_of("param_calls", param_call_items(out)));
    m.push(list_field_of("closure_args", closure_arg_items(out)));
    m.push(list_field_of("opaque_calls", opaque_call_items(out)));
    assert(member_views(m@) =~= lists_of(out@));
    let ghost lists = m@;
    if let Some(r) = &out.incomplete {
        m.push(text_field_of("incomplete", r));
        assert(member_views(m@) =~= member_views(lists).push(
            text_member("incomplete"@, r@),
        ));
    }
    m
}

/// Writes down what the front end has found.
pub fn write_events(out: &ProgramOut) -> (r: String)
    requires
        out.wf(),
    ensures
        r@ == document_text(document_of(out@)),
{
    print_document(&document(out))
}

/// What can be written down: finitely many classes with finitely many instances,
/// and numbers that fit a machine word.
pub open spec fn writable(out: OutV) -> bool {
    &&& out.class_instances.dom().finite()
    &&& forall|c: Name| #[trigger]
        out.class_instances.contains_key(c) ==> out.class_instances[c].len() <= usize::MAX
    &&& forall|i: int|
        0 <= i < out.param_calls.len() ==> (#[trigger] out.param_calls[i]).param <= usize::MAX
    &&& forall|i: int|
        0 <= i < out.closure_args.len() ==> (#[trigger] out.closure_args[i]).param <= usize::MAX
}

/// The recorded lists, as the reader knows them.
pub open spec fn recorded(out: OutV) -> RecordsV {
    RecordsV {
        events: out.events,
        counts: out.class_instances.map_values(|ids: Set<Name>| ids.len() as usize),
        calls: out.calls,
        params: out.param_calls,
        args: out.closure_args.map_values(
            |a: ClosureArgV|
                crate::events::ClosureArgV {
                    callee: a.callee,
                    param: a.param,
                    closure: a.closure,
                },
        ),
    }
}

/// The keys of the document and of its entries differ.
proof fn lemma_keys()
    ensures
        "name"@ != "events"@,
        "name"@ != "class_instances"@,
        "name"@ != "calls"@,
        "name"@ != "param_calls"@,
        "name"@ != "closure_args"@,
        "name"@ != "opaque_calls"@,
        "name"@ != "incomplete"@,
        "events"@ != "class_instances"@,
        "events"@ != "calls"@,
        "events"@ != "param_calls"@,
        "events"@ != "closure_args"@,
        "events"@ != "opaque_calls"@,
        "events"@ != "incomplete"@,
        "class_instances"@ != "calls"@,
        "class_instances"@ != "param_calls"@,
        "class_instances"@ != "closure_args"@,
        "class_instances"@ != "opaque_calls"@,
        "class_instances"@ != "incomplete"@,
        "calls"@ != "param_calls"@,
        "calls"@ != "closure_args"@,
        "calls"@ != "opaque_calls"@,
        "calls"@ != "incomplete"@,
        "param_calls"@ != "closure_args"@,
        "param_calls"@ != "opaque_calls"@,
        "param_calls"@ != "incomplete"@,
        "closure_args"@ != "opaque_calls"@,
        "closure_args"@ != "incomplete"@,
        "opaque_calls"@ != "incomplete"@,
        "function"@ != "site"@,
        "function"@ != "acquires"@,
        "function"@ != "held"@,
        "function"@ != "callee"@,
        "function"@ != "param"@,
        "function"@ != "closure"@,
        "site"@ != "acquires"@,
        "site"@ != "held"@,
        "acquires"@ != "held"@,
        "callee"@ != "held"@,
        "callee"@ != "param"@,
        "callee"@ != "closure"@,
        "param"@ != "held"@,
        "param"@ != "closure"@,
{
    reveal_strlit("name");
    reveal_strlit("events");
    reveal_strlit("class_instances");
    reveal_strlit("calls");
    reveal_strlit("param_calls");
    reveal_strlit("closure_args");
    reveal_strlit("opaque_calls");
    reveal_strlit("incomplete");
    reveal_strlit("function");
    reveal_strlit("site");
    reveal_strlit("acquires");
    reveal_strlit("held");
    reveal_strlit("callee");
    reveal_strlit("param");
    reveal_strlit("closure");
    assert("class_instances"@.len() == 15);
    assert("closure_args"@[0] == 'c');
    assert("opaque_calls"@[0] == 'o');
    assert("events"@.len() == 6);
    assert("incomplete"@.len() == 10);
    assert("param_calls"@.len() == 11);
    assert("name"@[0] == 'n');
    assert("site"@[0] == 's');
    assert("held"@[0] == 'h');
    assert("function"@[0] == 'f');
    assert("acquires"@[0] == 'a');
    assert("callee"@.len() == 6);
    assert("param"@.len() == 5);
    assert("closure"@.len() == 7);
    assert("calls"@.len() == 5);
}

/// A member with a key of its own is found.
proof fn lemma_find(obj: Seq<MemberV>, i: int)
    requires
        distinct_keys(obj),
        0 <= i < obj.len(),
    ensures
        field(obj, obj[i].key) == Some(obj[i].value),
{
    lemma_find_at(obj, obj.len() as int, i);
    assert(obj.take(obj.len() as int) =~= obj);
}

proof fn lemma_find_at(obj: Seq<MemberV>, n: int, i: int)
    requires
        distinct_keys(obj),
        0 <= i < obj.len(),
        0 <= n <= obj.len(),
    ensures
        find_key(obj.take(n), obj[i].key) == if i < n {
            Some(i)
        } else {
            None
        },
    decreases n,
{
    if n > 0 {
        lemma_find_at(obj, n - 1, i);
        assert(obj.take(n).drop_last() =~= obj.take(n - 1));
        assert(obj.take(n).last() == obj[n - 1]);
        if i < n - 1 {
            assert(obj[i].key != obj[n - 1].key);
        } else if n - 1 < i {
            assert(obj[n - 1].key != obj[i].key);
        }
    }
}

proof fn lemma_no_find(obj: Seq<MemberV>, key: Name)
    requires
        forall|i: int| 0 <= i < obj.len() ==> (#[trigger] obj[i]).key != key,
    ensures
        field(obj, key) is None,
    decreases obj.len(),
{
    if obj.len() > 0 {
        let r = obj.drop_last();
        assert forall|i: int| 0 <= i < r.len() implies (#[trigger] r[i]).key != key by {
            assert(r[i] == obj[i]);
        }
        lemma_no_find(r, key);
        assert(obj[obj.len() - 1].key != key);
    }
}

proof fn lemma_texts(q: Seq<Name>)
    ensures
        all_texts(q.map_values(|s: Name| ValueV::Str(s))) == Some(q),
        proper(texts_value(q)),
    decreases q.len(),
{
    let f = |s: Name| ValueV::Str(s);
    let items = q.map_values(f);
    if q.len() > 0 {
        lemma_texts(q.drop_last());
        assert(items.drop_last() =~= q.drop_last().map_values(f));
        assert(q.drop_last().push(q.last()) =~= q);
    } else {
        assert(q =~= Seq::empty());
    }
    lemma_proper_texts(items, items.len() as int);
}

proof fn lemma_proper_texts(items: Seq<ValueV>, n: int)
    requires
        forall|i: int| 0 <= i < items.len() ==> (#[trigger] items[i]) is Str,
        0 <= n <= items.len(),
    ensures
        proper_items(items, n),
    decreases n,
{
    if n > 0 {
        lemma_proper_texts(items, n - 1);
        assert(items[n - 1] is Str);
        assert(proper(items[n - 1]));
    }
}

/// Every value of a list is proper.
proof fn lemma_proper_items(items: Seq<ValueV>, n: int)
    requires
        forall|i: int| 0 <= i < items.len() ==> proper(#[trigger] items[i]),
        0 <= n <= items.len(),
    ensures
        proper_items(items, n),
    decreases n,
{
    if n > 0 {
        lemma_proper_items(items, n - 1);
    }
}

proof fn lemma_proper_members(members: Seq<MemberV>, n: int)
    requires
        forall|i: int| 0 <= i < members.len() ==> proper((#[trigger] members[i]).value),
        0 <= n <= members.len(),
    ensures
        proper_members(members, n),
    decreases n,
{
    if n > 0 {
        lemma_proper_members(members, n - 1);
    }
}

proof fn lemma_event(e: EventV, idx: nat)
    ensures
        proper(event_value(e)),
        event_of(event_value(e), idx) == Ok::<EventV, Name>(e),
{
    lemma_keys();
    lemma_texts(e.held);
    let m = event_value(e)->Obj_0;
    assert(distinct_keys(m));
    lemma_find(m, 0);
    lemma_find(m, 1);
    lemma_find(m, 2);
    lemma_find(m, 3);
    assert(m[0].key == "function"@ && m[1].key == "site"@ && m[2].key == "acquires"@ && m[3].key
        == "held"@);
    lemma_proper_members(m, m.len() as int);
}

proof fn lemma_call(l: LinkV, idx: nat)
    ensures
        proper(call_value(l)),
        call_of(call_value(l), idx) == Ok::<LinkV, Name>(l),
{
    lemma_keys();
    lemma_texts(l.held);
    let m = call_value(l)->Obj_0;
    assert(distinct_keys(m));
    lemma_find(m, 0);
    lemma_find(m, 1);
    lemma_find(m, 2);
    assert(m[0].key == "function"@ && m[1].key == "callee"@ && m[2].key == "held"@);
    lemma_proper_members(m, m.len() as int);
}

proof fn lemma_param_call(c: ParamCallV, idx: nat)
    requires
        c.param <= usize::MAX,
    ensures
        proper(param_call_value(c)),
        param_call_of(param_call_value(c), idx) == Ok::<ParamCallV, Name>(c),
{
    lemma_keys();
    lemma_texts(c.held);
    let m = param_call_value(c)->Obj_0;
    assert(distinct_keys(m));
    lemma_find(m, 0);
    lemma_find(m, 1);
    lemma_find(m, 2);
    assert(m[0].key == "function"@ && m[1].key == "param"@ && m[2].key == "held"@);
    lemma_proper_members(m, m.len() as int);
}

proof fn lemma_closure_arg(a: ClosureArgV, idx: nat)
    requires
        a.param <= usize::MAX,
    ensures
        proper(closure_arg_value(a)),
        closure_arg_of(closure_arg_value(a), idx) == Ok::<crate::events::ClosureArgV, Name>(
            crate::events::ClosureArgV { callee: a.callee, param: a.param, closure: a.closure },
        ),
{
    lemma_keys();
    let m = closure_arg_value(a)->Obj_0;
    assert(distinct_keys(m));
    lemma_find(m, 0);
    lemma_find(m, 1);
    lemma_find(m, 2);
    lemma_find(m, 3);
    assert(m[0].key == "function"@ && m[1].key == "callee"@ && m[2].key == "param"@ && m[3].key
        == "closure"@);
    lemma_proper_members(m, m.len() as int);
}

proof fn lemma_opaque_call(c: OpaqueCallV, idx: nat, m: Entry)
    ensures
        proper(opaque_call_value(c)),
        ({
            let held = effective(c.held, m, c.function);
            opaque_reason(opaque_call_value(c), idx, m) == Ok::<Option<Name>, Name>(
                if held.len() == 0 {
                    None
                } else {
                    Some(lost_call(c.site, c.function, held))
                },
            )
        }),
{
    lemma_keys();
    lemma_texts(c.held);
    let q = opaque_call_value(c)->Obj_0;
    assert(distinct_keys(q));
    lemma_find(q, 0);
    lemma_find(q, 1);
    lemma_find(q, 2);
    assert(q[0].key == "function"@ && q[1].key == "site"@ && q[2].key == "held"@);
    assert(q[0].value is Str && q[1].value is Str && q[2].value == texts_value(c.held));
    lemma_proper_members(q, q.len() as int);
}

/// A list whose entries are read one by one is read as a whole.
proof fn lemma_entries<T>(
    items: Seq<ValueV>,
    f: spec_fn(ValueV, nat) -> Result<T, Name>,
    q: Seq<T>,
)
    requires
        items.len() == q.len(),
        forall|i: int|
            0 <= i < items.len() ==> f(#[trigger] items[i], i as nat) == Ok::<T, Name>(q[i]),
    ensures
        entries(items, f) == Ok::<Seq<T>, Name>(q),
    decreases items.len(),
{
    if items.len() == 0 {
        assert(q =~= Seq::empty());
    } else {
        let r = items.drop_last();
        let p = q.drop_last();
        assert forall|i: int| 0 <= i < r.len() implies f(#[trigger] r[i], i as nat) == Ok::<
            T,
            Name,
        >(p[i]) by {
            assert(r[i] == items[i]);
        }
        lemma_entries(r, f, p);
        let n = items.len() - 1;
        assert(f(items[n], n as nat) == Ok::<T, Name>(q[n]));
        assert(p.push(q[n]) =~= q);
    }
}

proof fn lemma_counts(m: Map<Name, Set<Name>>, keys: Seq<Name>)
    requires
        keys.no_duplicates(),
        forall|i: int| 0 <= i < keys.len() ==> m.contains_key(#[trigger] keys[i]),
    ensures
        counts_in(keys.map_values(|c: Name| number_member(c, m[c].len()))) == Ok::<
            Map<Name, usize>,
            Name,
        >(
            Map::new(|c: Name| keys.contains(c), |c: Name| m[c].len() as usize),
        ),
    decreases keys.len(),
{
    let f = |c: Name| number_member(c, m[c].len());
    let want = Map::new(|c: Name| keys.contains(c), |c: Name| m[c].len() as usize);
    if keys.len() == 0 {
        assert(want =~= Map::empty());
    } else {
        let r = keys.drop_last();
        assert forall|i: int| 0 <= i < r.len() implies m.contains_key(#[trigger] r[i]) by {
            assert(r[i] == keys[i]);
        }
        lemma_counts(m, r);
        assert(keys.map_values(f).drop_last() =~= r.map_values(f));
        let before = Map::new(|c: Name| r.contains(c), |c: Name| m[c].len() as usize);
        let last = keys.last();
        assert(keys =~= r.push(last));
        assert forall|c: Name| want.contains_key(c) <==> before.insert(
            last,
            m[last].len() as usize,
        ).contains_key(c) by {
            lemma_push_contains(r, last, c);
        }
        assert(want =~= before.insert(last, m[last].len() as usize));
    }
}

/// The first call under a lock of which it is not known what it runs.
pub open spec fn first_lost_call(calls: Seq<OpaqueCallV>, m: Entry) -> Option<Name>
    decreases calls.len(),
{
    if calls.len() == 0 {
        None
    } else {
        match first_lost_call(calls.drop_last(), m) {
            Some(r) => Some(r),
            None => {
                let c = calls.last();
                let held = effective(c.held, m, c.function);
                if held.len() == 0 {
                    None
                } else {
                    Some(lost_call(c.site, c.function, held))
                }
            },
        }
    }
}

/// The program that the findings stand for: what callers hold is held in the
/// callee, and the analysis is incomplete for the first of the reasons that the
/// front end has given, a parameter call and an opaque call give.
pub open spec fn program_found(out: OutV) -> ProgramV {
    let r = recorded(out);
    let m = inheritance_of(r);
    let all = widened(r.events, m);
    ProgramV {
        name: "mir"@,
        events: reentered(all),
        class_instances: counted(r.counts, all),
        incomplete: match out.incomplete {
            Some(why) => Some(why),
            None => match unresolved_param(r.params, r.args, m) {
                Some(why) => Some(why),
                None => first_lost_call(out.opaque_calls, m),
            },
        },
    }
}

/// The opaque calls are read, up to the first under a lock.
proof fn lemma_opaque_read(calls: Seq<OpaqueCallV>, m: Entry)
    ensures
        opaque_under_lock(calls.map_values(|c: OpaqueCallV| opaque_call_value(c)), m) == Ok::<
            Option<Name>,
            Name,
        >(first_lost_call(calls, m)),
    decreases calls.len(),
{
    let f = |c: OpaqueCallV| opaque_call_value(c);
    if calls.len() > 0 {
        let r = calls.drop_last();
        lemma_opaque_read(r, m);
        assert(calls.map_values(f).drop_last() =~= r.map_values(f));
        lemma_opaque_call(calls.last(), (calls.len() - 1) as nat, m);
    }
}

/// What the front end writes down is what the reader reads: the same events, the
/// same calls and the same counts. The document is always read, as the program
/// that the findings stand for.
pub proof fn written_events_are_read_back(out: OutV)
    requires
        writable(out),
    ensures
        reading(document_text(document_of(out))) == Ok::<ProgramV, Name>(program_found(out)),
        read_document(document_text(document_of(out))) == Ok::<Seq<MemberV>, Name>(
            document_of(out),
        ),
        records_of(document_of(out)) == Ok::<RecordsV, Name>(recorded(out)),
        field(document_of(out), "name"@) == Some(ValueV::Str("mir"@)),
        field(document_of(out), "incomplete"@) == match out.incomplete {
            Some(r) => Some(ValueV::Str(r)),
            None => None,
        },
{
    let d = document_of(out);
    lemma_keys();
    lemma_sorted_set(out.class_instances.dom());
    lemma_ascending_distinct(sorted(out.class_instances.dom()));
    lemma_document_proper(out);
    read_gives_back_what_was_written(d);
    assert(distinct_keys(d));
    lemma_find(d, 0);
    lemma_find(d, 1);
    lemma_find(d, 2);
    lemma_find(d, 3);
    lemma_find(d, 4);
    lemma_find(d, 5);
    assert(d[0].key == "name"@ && d[1].key == "events"@ && d[2].key == "class_instances"@
        && d[3].key == "calls"@ && d[4].key == "param_calls"@ && d[5].key == "closure_args"@);
    match out.incomplete {
        Some(r) => {
            lemma_find(d, 7);
            assert(d[7] == text_member("incomplete"@, r));
        },
        None => {
            lemma_no_find(d, "incomplete"@);
        },
    }
    lemma_lists_read(out);
    lemma_find(d, 6);
    assert(d[6].key == "opaque_calls"@);
    lemma_opaque_read(out.opaque_calls, inheritance_of(recorded(out)));
}

/// An ascending sequence holds nothing twice.
pub proof fn lemma_ascending_distinct(q: Seq<Name>)
    requires
        ascending(q),
    ensures
        q.no_duplicates(),
{
    assert forall|i: int, j: int| 0 <= i < q.len() && 0 <= j < q.len() && i != j implies q[i]
        != q[j] by {
        lemma_lex_irreflexive(q[i]);
        if i < j {
            assert(lex_lt(q[i], q[j]));
        } else {
            assert(lex_lt(q[j], q[i]));
        }
    }
}

/// The lists of the document are read.
proof fn lemma_lists_read(out: OutV)
    requires
        writable(out),
    ensures
        ({
            let r = recorded(out);
            &&& entries(
                out.events.map_values(|e: EventV| event_value(e)),
                |v: ValueV, i: nat| event_of(v, i),
            ) == Ok::<Seq<EventV>, Name>(r.events)
            &&& counts_in(counts_value(out.class_instances)) == Ok::<Map<Name, usize>, Name>(
                r.counts,
            )
            &&& entries(
                out.calls.map_values(|l: LinkV| call_value(l)),
                |v: ValueV, i: nat| call_of(v, i),
            ) == Ok::<Seq<LinkV>, Name>(r.calls)
            &&& entries(
                out.param_calls.map_values(|c: ParamCallV| param_call_value(c)),
                |v: ValueV, i: nat| param_call_of(v, i),
            ) == Ok::<Seq<ParamCallV>, Name>(r.params)
            &&& entries(
                out.closure_args.map_values(|a: ClosureArgV| closure_arg_value(a)),
                |v: ValueV, i: nat| closure_arg_of(v, i),
            ) == Ok::<Seq<crate::events::ClosureArgV>, Name>(r.args)
        }),
{
    let r = recorded(out);
    let events = out.events.map_values(|e: EventV| event_value(e));
    assert forall|i: int| 0 <= i < events.len() implies event_of(#[trigger] events[i], i as nat)
        == Ok::<EventV, Name>(r.events[i]) by {
        lemma_event(out.events[i], i as nat);
    }
    lemma_entries(events, |v: ValueV, i: nat| event_of(v, i), r.events);
    let calls = out.calls.map_values(|l: LinkV| call_value(l));
    assert forall|i: int| 0 <= i < calls.len() implies call_of(#[trigger] calls[i], i as nat)
        == Ok::<LinkV, Name>(r.calls[i]) by {
        lemma_call(out.calls[i], i as nat);
    }
    lemma_entries(calls, |v: ValueV, i: nat| call_of(v, i), r.calls);
    let params = out.param_calls.map_values(|c: ParamCallV| param_call_value(c));
    assert forall|i: int| 0 <= i < params.len() implies param_call_of(
        #[trigger] params[i],
        i as nat,
    ) == Ok::<ParamCallV, Name>(r.params[i]) by {
        lemma_param_call(out.param_calls[i], i as nat);
    }
    lemma_entries(params, |v: ValueV, i: nat| param_call_of(v, i), r.params);
    let args = out.closure_args.map_values(|a: ClosureArgV| closure_arg_value(a));
    assert forall|i: int| 0 <= i < args.len() implies closure_arg_of(#[trigger] args[i], i as nat)
        == Ok::<crate::events::ClosureArgV, Name>(r.args[i]) by {
        lemma_closure_arg(out.closure_args[i], i as nat);
    }
    lemma_entries(args, |v: ValueV, i: nat| closure_arg_of(v, i), r.args);
    let m = out.class_instances;
    let keys = sorted(m.dom());
    lemma_sorted_set(m.dom());
    lemma_ascending_distinct(keys);
    assert forall|i: int| 0 <= i < keys.len() implies m.contains_key(#[trigger] keys[i]) by {
        assert(keys.contains(keys[i]));
    }
    lemma_counts(m, keys);
    assert(Map::new(|c: Name| keys.contains(c), |c: Name| m[c].len() as usize) =~= r.counts);
}

proof fn lemma_document_proper(out: OutV)
    requires
        writable(out),
    ensures
        proper(ValueV::Obj(document_of(out))),
        distinct_keys(document_of(out)),
{
    let d = document_of(out);
    lemma_keys();
    let m = out.class_instances;
    let keys = sorted(m.dom());
    lemma_sorted_set(m.dom());
    lemma_ascending_distinct(keys);
    let events = d[1].value->Arr_0;
    assert forall|i: int| 0 <= i < events.len() implies proper(#[trigger] events[i]) by {
        lemma_event(out.events[i], 0);
    }
    lemma_proper_items(events, events.len() as int);
    let counts = d[2].value->Obj_0;
    assert forall|i: int| 0 <= i < counts.len() implies proper((#[trigger] counts[i]).value) by {
        assert(keys.contains(keys[i]));
        assert(m.contains_key(keys[i]));
    }
    lemma_proper_members(counts, counts.len() as int);
    assert(distinct_keys(counts)) by {
        assert forall|i: int, j: int| 0 <= i < j < counts.len() implies (#[trigger] counts[i]).key
            != (#[trigger] counts[j]).key by {
            assert(counts[i].key == keys[i] && counts[j].key == keys[j]);
        }
    }
    let calls = d[3].value->Arr_0;
    assert forall|i: int| 0 <= i < calls.len() implies proper(#[trigger] calls[i]) by {
        lemma_call(out.calls[i], 0);
    }
    lemma_proper_items(calls, calls.len() as int);
    let params = d[4].value->Arr_0;
    assert forall|i: int| 0 <= i < params.len() implies proper(#[trigger] params[i]) by {
        lemma_param_call(out.param_calls[i], 0);
    }
    lemma_proper_items(params, params.len() as int);
    let args = d[5].value->Arr_0;
    assert forall|i: int| 0 <= i < args.len() implies proper(#[trigger] args[i]) by {
        lemma_closure_arg(out.closure_args[i], 0);
    }
    lemma_proper_items(args, args.len() as int);
    let opaque = d[6].value->Arr_0;
    assert forall|i: int| 0 <= i < opaque.len() implies proper(#[trigger] opaque[i]) by {
        lemma_opaque_call(out.opaque_calls[i], 0, Map::empty());
    }
    lemma_proper_items(opaque, opaque.len() as int);
    assert forall|i: int| 0 <= i < d.len() implies proper((#[trigger] d[i]).value) by {
        if i == 7 {
            assert(d[7].value is Str);
        }
    }
    lemma_proper_members(d, d.len() as int);
}

/// What the front end has found can be written down and read back.
pub proof fn findings_are_writable(out: &ProgramOut)
    requires
        out.wf(),
    ensures
        writable(out@),
{
    let m = out@.class_instances;
    let keys = out.class_instances.key_seq();
    assert(m.dom() =~= keys.to_set());
    assert forall|c: Name| #[trigger] m.contains_key(c) implies m[c].len() <= usize::MAX by {
        let ids = out.class_instances@[c];
        assert(ids.wf());
        let q = names(ids.items@);
        lemma_ascending_distinct(q);
        q.unique_seq_to_set();
        assert(ids.items.len() <= usize::MAX);
    }
}

}
