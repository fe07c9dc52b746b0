//! What reports and messages say.

use vstd::prelude::*;

use crate::ast::ItemV;
use crate::frontend::lowering;
use crate::lint::naming::mentions;
use crate::model::ProgramV;
use crate::parser::parsed;
use crate::report::{
    advice_text, base_name, base_start, counted, cycle_text, head_text, joined, order_text,
    program_of_source, report_text, shown_class,
};
use crate::solver::{ConstraintV, OutcomeV, ReportV};
use crate::text::{dec, Name};

verus! {

/// The character separates the parts of a path.
pub open spec fn is_separator(c: char) -> bool {
    c == '/' || c == '\\'
}

/// The name of a file is what follows the last separator of its path: it holds no
/// separator, and the path without it is empty or ends with one.
pub proof fn file_names_follow_the_last_separator(path: Name)
    ensures
        ({
            let name = base_name(path);
            let front = path.take(path.len() - name.len());
            &&& name.len() <= path.len()
            &&& path == front + name
            &&& forall|i: int| 0 <= i < name.len() ==> !is_separator(#[trigger] name[i])
            &&& front.len() > 0 ==> is_separator(front.last())
        }),
{
    let n = path.len() as int;
    lemma_base(path, n);
    let i = base_start(path, n);
    let name = base_name(path);
    let front = path.take(n - name.len());
    assert(front =~= path.take(i));
    assert(path =~= front + name);
    assert forall|k: int| 0 <= k < name.len() implies !is_separator(#[trigger] name[k]) by {
        assert(name[k] == path[i + k]);
    }
    if front.len() > 0 {
        assert(front.last() == path[i - 1]);
    }
}

proof fn lemma_base(path: Name, n: int)
    requires
        0 <= n <= path.len(),
    ensures
        0 <= base_start(path, n) <= n,
        forall|k: int| base_start(path, n) <= k < n ==> !is_separator(#[trigger] path[k]),
        base_start(path, n) > 0 ==> is_separator(path[base_start(path, n) - 1]),
    decreases n,
{
    if 0 < n && path[n - 1] != '/' && path[n - 1] != '\\' {
        lemma_base(path, n - 1);
    }
}

/// A count names one thing in the singular, and none or several in the plural.
pub proof fn counts_agree_in_number(n: nat, one: Name, many: Name)
    ensures
        n == 1 ==> counted(n, one, many) == "1 "@ + one,
        n != 1 ==> counted(n, one, many) == dec(n) + " "@ + many,
{
    reveal_strlit("1 ");
    reveal_strlit(" ");
    if n == 1 {
        assert(dec(1) =~= seq!['1']);
        assert("1 "@ =~= dec(1) + " "@);
    }
}

/// The number of things that are counted.
pub open spec fn is_count(text: Name, n: nat, thing: Name) -> bool {
    if n == 1 {
        text == dec(n) + " "@ + thing
    } else {
        text == dec(n) + " "@ + thing + "s"@ || text == dec(n) + " "@ + thing + "es"@
    }
}

/// A report names its program and counts its events, classes and constraints.
pub proof fn heads_name_the_program(r: ReportV)
    ensures
        exists|a: Name, b: Name, c: Name| #[trigger]
            is_head(head_text(r), r.program, a, b, c) && is_count(a, r.event_count, "event"@)
                && is_count(b, r.class_count, "lock class"@) && is_count(
                c,
                r.constraint_count,
                "ordering constraint"@,
            ),
{
    reveal_strlit("event");
    reveal_strlit("events");
    reveal_strlit("s");
    reveal_strlit("es");
    reveal_strlit("lock class");
    reveal_strlit("lock classes");
    reveal_strlit("ordering constraint");
    reveal_strlit("ordering constraints");
    reveal_strlit("== whorl :: lock-ordering analysis :: ");
    reveal_strlit(" ==\n   ");
    reveal_strlit(" ==\n");
    reveal_strlit("   ");
    reveal_strlit(", ");
    reveal_strlit("\n\n");
    let a = counted(r.event_count, "event"@, "events"@);
    let b = counted(r.class_count, "lock class"@, "lock classes"@);
    let c = counted(r.constraint_count, "ordering constraint"@, "ordering constraints"@);
    assert(dec(r.event_count) + " "@ + "events"@ =~= dec(r.event_count) + " "@ + "event"@ + "s"@);
    assert(dec(r.class_count) + " "@ + "lock classes"@ =~= dec(r.class_count) + " "@
        + "lock class"@ + "es"@);
    assert(dec(r.constraint_count) + " "@ + "ordering constraints"@ =~= dec(r.constraint_count)
        + " "@ + "ordering constraint"@ + "s"@);
    assert(head_text(r) =~= "== whorl :: lock-ordering analysis :: "@ + r.program + " ==\n"@
        + "   "@ + a + ", "@ + b + ", "@ + c + "\n\n"@);
    assert(is_head(head_text(r), r.program, a, b, c));
}

/// The head of a report on the program, with three counts.
pub open spec fn is_head(text: Name, program: Name, a: Name, b: Name, c: Name) -> bool {
    text == "== whorl :: lock-ordering analysis :: "@ + program + " ==\n"@ + "   "@ + a + ", "@ + b
        + ", "@ + c + "\n\n"@
}

/// What follows the head starts with the tag.
pub open spec fn is_tagged(text: Name, head: Name, tag: Name) -> bool {
    exists|rest: Name| text == #[trigger] (head + tag + rest)
}

/// A report says what was found: a deadlock wherever there is a cycle, even if
/// the analysis stopped early; that it is inconclusive where it stopped early
/// without one; and only otherwise that the program is safe.
pub proof fn reports_tell_the_verdict(r: ReportV, incomplete: Option<Name>)
    ensures
        r.outcome is Deadlock ==> is_tagged(
            report_text(r, incomplete),
            head_text(r),
            "   [DEADLOCK]  "@,
        ),
        r.outcome is DeadlockFree && incomplete is Some ==> is_tagged(
            report_text(r, incomplete),
            head_text(r),
            "   [INCOMPLETE]  "@,
        ) && mentions(report_text(r, incomplete), incomplete->0),
        r.outcome is DeadlockFree && incomplete is None ==> is_tagged(
            report_text(r, incomplete),
            head_text(r),
            "   [SAFE]  "@,
        ),
{
    let text = report_text(r, incomplete);
    let head = head_text(r);
    match r.outcome {
        OutcomeV::Deadlock { cycle } => {
            let line =
                "   [DEADLOCK]  a lock-ordering cycle exists -- a circular wait is possible\n\n"@;
            let tag = "   [DEADLOCK]  "@;
            reveal_strlit("   [DEADLOCK]  a lock-ordering cycle exists -- a circular wait is possible\n\n");
            reveal_strlit("   [DEADLOCK]  ");
            assert(line =~= tag + line.skip(15));
            let tail = text.skip((head.len() + 15) as int);
            assert(text =~= head + tag + tail);
        },
        OutcomeV::DeadlockFree { order } => match incomplete {
            Some(reason) => {
                let first =
                    "   [INCOMPLETE]  analysis stopped early -- the verdict is NOT conclusive\n\n   "@;
                let last =
                    "\n   no deadlock was found in the partial analysis, but undetected ones may remain.\n"@;
                let tag = "   [INCOMPLETE]  "@;
                reveal_strlit("   [INCOMPLETE]  analysis stopped early -- the verdict is NOT conclusive\n\n   ");
                reveal_strlit("   [INCOMPLETE]  ");
                assert(first =~= tag + first.skip(17));
                let tail = text.skip((head.len() + 17) as int);
                assert(text =~= head + tag + tail);
                assert(text =~= (head + first) + reason + last);
            },
            None => {
                let line =
                    "   [SAFE]  the lock graph is acyclic -- no lock-ordering deadlock is possible\n\n   a valid global lock order:\n"@;
                let tag = "   [SAFE]  "@;
                reveal_strlit("   [SAFE]  the lock graph is acyclic -- no lock-ordering deadlock is possible\n\n   a valid global lock order:\n");
                reveal_strlit("   [SAFE]  ");
                assert(line =~= tag + line.skip(11));
                let tail = text.skip((head.len() + 11) as int);
                assert(text =~= head + tag + tail);
            },
        },
    }
}

/// The line of a class in a lock order.
pub open spec fn order_line(k: int, class: Name) -> Name {
    "     "@ + dec((k + 1) as nat) + ". "@ + shown_class(class) + "\n"@
}

/// The line of a constraint.
pub open spec fn constraint_line(c: ConstraintV) -> Name {
    "     "@ + shown_class(c.before) + "  <  "@ + shown_class(c.after) + "   via "@ + c.function
        + " @ "@ + c.site + "\n"@
}

/// The lock order is listed in order: line `k` comes right behind those of the
/// classes before it.
proof fn lemma_order_line(order: Seq<Name>, k: int)
    requires
        0 <= k < order.len(),
    ensures
        exists|rest: Name|
            order_text(order) == #[trigger] (order_text(order.take(k)) + order_line(k, order[k])
                + rest),
    decreases order.len(),
{
    let r = order.drop_last();
    let n = r.len() as int;
    let last = order_line(n, order.last());
    assert(order_text(order) =~= order_text(r) + last);
    if k < n {
        lemma_order_line(r, k);
        assert(r.take(k) =~= order.take(k));
        let rest = choose|rest: Name|
            order_text(r) == #[trigger] (order_text(r.take(k)) + order_line(k, r[k]) + rest);
        assert(order_text(order) =~= order_text(order.take(k)) + order_line(k, order[k]) + (rest
            + last));
    } else {
        assert(order.take(k) =~= r);
        let rest = Seq::<char>::empty();
        assert(order_text(order) =~= order_text(order.take(k)) + order_line(k, order[k]) + rest);
    }
}

/// A report on a safe program lists every class of the lock order, numbered from
/// one, each behind those before it.
pub proof fn lock_orders_are_listed(r: ReportV, order: Seq<Name>, k: int)
    requires
        r.outcome == (OutcomeV::DeadlockFree { order }),
        0 <= k < order.len(),
    ensures
        mentions(report_text(r, None), order_text(order.take(k)) + order_line(k, order[k])),
{
    lemma_order_line(order, k);
    let rest = choose|rest: Name|
        order_text(order) == #[trigger] (order_text(order.take(k)) + order_line(k, order[k])
            + rest);
    let text = report_text(r, None);
    let all = order_text(order);
    let line = order_text(order.take(k)) + order_line(k, order[k]);
    let a =
        "   [SAFE]  the lock graph is acyclic -- no lock-ordering deadlock is possible\n\n   a valid global lock order:\n"@;
    let z =
        "   any acquisition consistent with this order cannot form a circular wait. (Havender)\n"@;
    assert(text =~= (head_text(r) + a) + line + (rest + z));
}

proof fn lemma_cycle_line(cycle: Seq<ConstraintV>, k: int)
    requires
        0 <= k < cycle.len(),
    ensures
        exists|rest: Name|
            cycle_text(cycle) == #[trigger] (cycle_text(cycle.take(k)) + constraint_line(cycle[k])
                + rest),
    decreases cycle.len(),
{
    let r = cycle.drop_last();
    let n = r.len() as int;
    let last = constraint_line(cycle.last());
    assert(cycle_text(cycle) =~= cycle_text(r) + last);
    if k < n {
        lemma_cycle_line(r, k);
        assert(r.take(k) =~= cycle.take(k));
        let rest = choose|rest: Name|
            cycle_text(r) == #[trigger] (cycle_text(r.take(k)) + constraint_line(r[k]) + rest);
        assert(cycle_text(cycle) =~= cycle_text(cycle.take(k)) + constraint_line(cycle[k]) + (rest
            + last));
    } else {
        assert(cycle.take(k) =~= r);
        let rest = Seq::<char>::empty();
        assert(cycle_text(cycle) =~= cycle_text(cycle.take(k)) + constraint_line(cycle[k]) + rest);
    }
}

/// A report on a deadlock lists every constraint of the cycle, with its classes,
/// its function and its site, each behind those before it.
pub proof fn cycles_are_listed(
    r: ReportV,
    incomplete: Option<Name>,
    cycle: Seq<ConstraintV>,
    k: int,
)
    requires
        r.outcome == (OutcomeV::Deadlock { cycle }),
        0 <= k < cycle.len(),
    ensures
        mentions(
            report_text(r, incomplete),
            cycle_text(cycle.take(k)) + constraint_line(cycle[k]),
        ),
{
    lemma_cycle_line(cycle, k);
    let rest = choose|rest: Name|
        cycle_text(cycle) == #[trigger] (cycle_text(cycle.take(k)) + constraint_line(cycle[k])
            + rest);
    let text = report_text(r, incomplete);
    let line = cycle_text(cycle.take(k)) + constraint_line(cycle[k]);
    let a = "   [DEADLOCK]  a lock-ordering cycle exists -- a circular wait is possible\n\n"@;
    let z = "\n"@ + advice_text(cycle, r.self_loop_single_instance);
    assert(text =~= (head_text(r) + a) + line + (rest + z));
}

/// Every class is shown by its name, but for the processor.
pub proof fn classes_are_shown_by_name(class: Name)
    ensures
        class != "<cpu>"@ ==> shown_class(class) == class,
        shown_class("<cpu>"@) == "CPU(preemption)"@,
{
}

/// The line of error `k` in a message.
pub open spec fn error_line(k: int, e: Name) -> Name {
    if k > 0 {
        "\n  "@ + e
    } else {
        e
    }
}

/// A message of several errors holds each of them, on a line of its own behind
/// those before it.
pub proof fn messages_hold_every_error(q: Seq<Name>, k: int)
    requires
        0 <= k < q.len(),
    ensures
        exists|rest: Name|
            joined(q) == #[trigger] (joined(q.take(k)) + error_line(k, q[k]) + rest),
    decreases q.len(),
{
    let r = q.drop_last();
    let n = r.len() as int;
    if k < n {
        messages_hold_every_error(r, k);
        assert(r.take(k) =~= q.take(k));
        let rest = choose|rest: Name|
            joined(r) == #[trigger] (joined(r.take(k)) + error_line(k, r[k]) + rest);
        assert(joined(q) =~= joined(q.take(k)) + error_line(k, q[k]) + (rest + "\n  "@
            + q.last()));
    } else {
        assert(q.take(k) =~= r);
        let rest = Seq::<char>::empty();
        assert(joined(q) =~= joined(q.take(k)) + error_line(k, q[k]) + rest);
    }
}

/// A source file is analyzed under the name behind the last separator of its
/// path; a text that does not parse is refused with the parser's message, and a
/// program with errors with all of them.
pub proof fn sources_are_known_by_their_file_name(
    src: Name,
    front: Name,
    name: Name,
    items: Seq<ItemV>,
)
    requires
        parsed(src) == Ok::<Seq<ItemV>, Name>(items),
        front.len() > 0 ==> is_separator(front.last()),
        forall|i: int| 0 <= i < name.len() ==> !is_separator(#[trigger] name[i]),
    ensures
        match lowering(items, name) {
            Ok(p) => p.name == name && program_of_source(src, front + name) == Ok::<
                ProgramV,
                Name,
            >(p),
            Err(errors) => program_of_source(src, front + name) == Err::<ProgramV, Name>(
                joined(errors),
            ),
        },
{
    let path = front + name;
    let n = path.len() as int;
    lemma_base(path, n);
    let i = base_start(path, n);
    let k = front.len() as int;
    if i < k {
        assert(path[k - 1] == front.last());
        assert(is_separator(path[k - 1]));
    }
    if i > k {
        assert(path[i - 1] == name[i - 1 - k]);
    }
    assert(path.skip(k) =~= name);
}

/// A report on a lock order of a class with itself tells a lock that is taken
/// again from two locks of one class that are taken without an order.
pub proof fn advice_tells_reentry_from_disorder(
    r: ReportV,
    incomplete: Option<Name>,
    c: ConstraintV,
)
    requires
        r.outcome == (OutcomeV::Deadlock { cycle: seq![c] }),
        c.before == c.after,
    ensures
        r.self_loop_single_instance ==> mentions(
            report_text(r, incomplete),
            "   the single lock of class '"@ + c.before,
        ),
        !r.self_loop_single_instance ==> mentions(
            report_text(r, incomplete),
            "   two locks of class '"@ + c.before,
        ),
{
    let cycle = seq![c];
    let single = r.self_loop_single_instance;
    let text = report_text(r, incomplete);
    let tag = "   [DEADLOCK]  a lock-ordering cycle exists -- a circular wait is possible\n\n"@;
    let front = head_text(r) + tag + cycle_text(cycle) + "\n"@;
    let said = (if single {
        "   the single lock of class '"@
    } else {
        "   two locks of class '"@
    }) + c.before;
    let advice = advice_text(cycle, single);
    assert(cycle[0] == c);
    let rest = advice.skip(said.len() as int);
    assert(advice =~= said + rest);
    assert(text =~= front + said + rest);
}

}
