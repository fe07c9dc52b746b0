//! What the analyzer tells its user.

use vstd::prelude::*;

use crate::events::reading;
use crate::frontend::{lower, lowering};
use crate::model::{opt_name, Program, ProgramV};
use crate::ordset::sorted;
use crate::parser::{parse, parsed};
use crate::solver::{
    analysis, analyze, constraint_views, dot_document, dot_edges, held_classes, to_dot, Constraint,
    ConstraintV, Outcome, OutcomeV, Report, ReportV,
};
use crate::text::{chars_of, dec, names, push_dec, str_eq, text_of, Name};

verus! {

/// The last separator of a path is before position `i`, or there is none.
pub open spec fn base_start(path: Name, n: int) -> int
    decreases n,
{
    if 0 < n <= path.len() && path[n - 1] != '/' && path[n - 1] != '\\' {
        base_start(path, n - 1)
    } else {
        n
    }
}

/// The part of a path behind its last separator.
pub open spec fn base_name(path: Name) -> Name {
    path.skip(base_start(path, path.len() as int))
}

/// The part of a path behind its last separator.
pub fn basename(path: &str) -> (r: String)
    ensures
        r@ == base_name(path@),
{
    let chars = chars_of(path);
    let n: usize = chars.len();
    let mut i: usize = n;
    while i > 0 && chars[i - 1] != '/' && chars[i - 1] != '\\'
        invariant
            chars@ == path@,
            n == chars@.len(),
            i <= n,
            base_start(path@, n as int) == base_start(path@, i as int),
        decreases i,
    {
        i = i - 1;
    }
    assert(path@.skip(i as int) =~= path@.subrange(i as int, n as int));
    text_of(&chars, i, n)
}

/// A class as it is shown: the synthetic preemption resource has a readable
/// name.
pub open spec fn shown_class(class: Name) -> Name {
    if class == "<cpu>"@ {
        "CPU(preemption)"@
    } else {
        class
    }
}

/// Shows a class name.
pub fn disp(class: &str) -> (r: &str)
    ensures
        r@ == shown_class(class@),
{
    if str_eq(class, "<cpu>") {
        "CPU(preemption)"
    } else {
        class
    }
}

/// A number and what it counts.
pub open spec fn counted(n: nat, one: Name, many: Name) -> Name {
    dec(n) + " "@ + if n == 1 {
        one
    } else {
        many
    }
}

fn push_counted(out: &mut String, n: usize, one: &str, many: &str)
    ensures
        final(out)@ == old(out)@ + counted(n as nat, one@, many@),
{
    let ghost start = out@;
    push_dec(out, n);
    out.append(" ");
    if n == 1 {
        out.append(one);
    } else {
        out.append(many);
    }
    assert(out@ =~= start + counted(n as nat, one@, many@));
}

/// The head of a report.
pub open spec fn head_text(r: ReportV) -> Name {
    "== whorl :: lock-ordering analysis :: "@ + r.program + " ==\n   "@ + counted(
        r.event_count,
        "event"@,
        "events"@,
    ) + ", "@ + counted(r.class_count, "lock class"@, "lock classes"@) + ", "@ + counted(
        r.constraint_count,
        "ordering constraint"@,
        "ordering constraints"@,
    ) + "\n\n"@
}

/// Nothing was found, but the analysis stopped early.
pub open spec fn incomplete_text(reason: Name) -> Name {
    "   [INCOMPLETE]  analysis stopped early -- the verdict is NOT conclusive\n\n   "@ + reason
        + "\n   no deadlock was found in the partial analysis, but undetected ones may remain.\n"@
}

/// The classes of a lock order, numbered.
pub open spec fn order_text(order: Seq<Name>) -> Name
    decreases order.len(),
{
    if order.len() == 0 {
        Seq::empty()
    } else {
        order_text(order.drop_last()) + "     "@ + dec(order.len()) + ". "@ + shown_class(
            order.last(),
        ) + "\n"@
    }
}

/// A valid lock order was found.
pub open spec fn safe_text(order: Seq<Name>) -> Name {
    "   [SAFE]  the lock graph is acyclic -- no lock-ordering deadlock is possible\n\n   a valid global lock order:\n"@
        + order_text(order)
        + "   any acquisition consistent with this order cannot form a circular wait. (Havender)\n"@
}

/// One constraint of a cycle.
pub open spec fn constraint_text(c: ConstraintV) -> Name {
    "     "@ + shown_class(c.before) + "  <  "@ + shown_class(c.after) + "   via "@ + c.function
        + " @ "@ + c.site + "\n"@
}

/// The constraints of a cycle.
pub open spec fn cycle_text(cycle: Seq<ConstraintV>) -> Name
    decreases cycle.len(),
{
    if cycle.len() == 0 {
        Seq::empty()
    } else {
        cycle_text(cycle.drop_last()) + constraint_text(cycle.last())
    }
}

/// What a cycle means.
pub open spec fn advice_text(cycle: Seq<ConstraintV>, single: bool) -> Name {
    if cycle.len() == 1 && cycle[0].before == cycle[0].after {
        if single {
            "   the single lock of class '"@ + cycle[0].before
                + "' is re-acquired while already held.\n   if that lock is not reentrant, a thread deadlocks against itself here.\n   fix: avoid re-acquiring the lock, or make it reentrant.\n"@
        } else {
            "   two locks of class '"@ + cycle[0].before
                + "' are acquired without a defined order.\n   one thread may hold x and wait for y while another holds y and waits for x.\n   fix: acquire same-class locks together with `with ordered(a, b) { .. }`.\n"@
        }
    } else {
        "   these constraints form a cycle: no consistent global lock order exists,\n   so threads acquiring these locks can wait on each other in a ring.\n"@
    }
}

/// A cycle was found.
pub open spec fn deadlock_text(cycle: Seq<ConstraintV>, single: bool) -> Name {
    "   [DEADLOCK]  a lock-ordering cycle exists -- a circular wait is possible\n\n"@ + cycle_text(
        cycle,
    ) + "\n"@ + advice_text(cycle, single)
}

/// A report. A deadlock found in a partial analysis is still real; only the
/// absence of one is inconclusive where the analysis stopped early.
pub open spec fn report_text(r: ReportV, incomplete: Option<Name>) -> Name {
    head_text(r) + match r.outcome {
        OutcomeV::DeadlockFree { order } => match incomplete {
            Some(reason) => incomplete_text(reason),
            None => safe_text(order),
        },
        OutcomeV::Deadlock { cycle } => deadlock_text(cycle, r.self_loop_single_instance),
    }
}

fn push_head(out: &mut String, r: &Report)
    ensures
        final(out)@ == old(out)@ + head_text(r@),
{
    let ghost start = out@;
    out.append("== whorl :: lock-ordering analysis :: ");
    out.append(r.program.as_str());
    out.append(" ==\n   ");
    push_counted(out, r.event_count, "event", "events");
    out.append(", ");
    push_counted(out, r.class_count, "lock class", "lock classes");
    out.append(", ");
    push_counted(out, r.constraint_count, "ordering constraint", "ordering constraints");
    out.append("\n\n");
    assert(out@ =~= start + head_text(r@));
}

fn push_order(out: &mut String, order: &Vec<String>)
    ensures
        final(out)@ == old(out)@ + order_text(names(order@)),
{
    let ghost start = out@;
    let ghost q = names(order@);
    let mut i: usize = 0;
    assert(out@ =~= start + order_text(q.take(0)));
    while i < order.len()
        invariant
            q == names(order@),
            i <= order@.len(),
            out@ == start + order_text(q.take(i as int)),
        decreases order@.len() - i,
    {
        assert(q.take(i + 1).drop_last() =~= q.take(i as int));
        assert(q.take(i + 1).last() == order@[i as int]@);
        out.append("     ");
        push_dec(out, i + 1);
        out.append(". ");
        out.append(disp(order[i].as_str()));
        out.append("\n");
        assert(out@ =~= start + order_text(q.take(i + 1)));
        i = i + 1;
    }
    assert(q.take(i as int) =~= q);
}

fn push_constraint(out: &mut String, c: &Constraint)
    ensures
        final(out)@ == old(out)@ + constraint_text(c@),
{
    let ghost start = out@;
    out.append("     ");
    out.append(disp(c.before.as_str()));
    out.append("  <  ");
    out.append(disp(c.after.as_str()));
    out.append("   via ");
    out.append(c.function.as_str());
    out.append(" @ ");
    out.append(c.site.as_str());
    out.append("\n");
    assert(out@ =~= start + constraint_text(c@));
}

fn push_cycle(out: &mut String, cycle: &Vec<Constraint>)
    ensures
        final(out)@ == old(out)@ + cycle_text(constraint_views(cycle@)),
{
    let ghost start = out@;
    let ghost q = constraint_views(cycle@);
    let mut i: usize = 0;
    assert(out@ =~= start + cycle_text(q.take(0)));
    while i < cycle.len()
        invariant
            q == constraint_views(cycle@),
            i <= cycle@.len(),
            out@ == start + cycle_text(q.take(i as int)),
        decreases cycle@.len() - i,
    {
        assert(q.take(i + 1).drop_last() =~= q.take(i as int));
        assert(q.take(i + 1).last() == cycle@[i as int]@);
        push_constraint(out, &cycle[i]);
        assert(out@ =~= start + cycle_text(q.take(i + 1)));
        i = i + 1;
    }
    assert(q.take(i as int) =~= q);
}

fn push_advice(out: &mut String, cycle: &Vec<Constraint>, single: bool)
    ensures
        final(out)@ == old(out)@ + advice_text(constraint_views(cycle@), single),
{
    let ghost start = out@;
    let ghost q = constraint_views(cycle@);
    if cycle.len() == 1 {
        assert(q[0] == cycle@[0]@);
        if str_eq(cycle[0].before.as_str(), cycle[0].after.as_str()) {
            if single {
                out.append("   the single lock of class '");
                out.append(cycle[0].before.as_str());
                out.append(
                    "' is re-acquired while already held.\n   if that lock is not reentrant, a thread deadlocks against itself here.\n   fix: avoid re-acquiring the lock, or make it reentrant.\n",
                );
            } else {
                out.append("   two locks of class '");
                out.append(cycle[0].before.as_str());
                out.append(
                    "' are acquired without a defined order.\n   one thread may hold x and wait for y while another holds y and waits for x.\n   fix: acquire same-class locks together with `with ordered(a, b) { .. }`.\n",
                );
            }
            assert(out@ =~= start + advice_text(q, single));
            return;
        }
    }
    out.append(
        "   these constraints form a cycle: no consistent global lock order exists,\n   so threads acquiring these locks can wait on each other in a ring.\n",
    );
    assert(out@ =~= start + advice_text(q, single));
}

/// Writes down a report.
pub fn print_report(r: &Report, incomplete: &Option<String>) -> (text: String)
    ensures
        text@ == report_text(r@, opt_name(*incomplete)),
{
    let mut out = String::new();
    push_head(&mut out, r);
    assert(out@ =~= head_text(r@));
    let ghost head = out@;
    match &r.outcome {
        Outcome::DeadlockFree { order } => match incomplete {
            Some(reason) => {
                out.append(
                    "   [INCOMPLETE]  analysis stopped early -- the verdict is NOT conclusive\n\n   ",
                );
                out.append(reason.as_str());
                out.append(
                    "\n   no deadlock was found in the partial analysis, but undetected ones may remain.\n",
                );
                assert(out@ =~= head + incomplete_text(reason@));
            },
            None => {
                out.append(
                    "   [SAFE]  the lock graph is acyclic -- no lock-ordering deadlock is possible\n\n   a valid global lock order:\n",
                );
                push_order(&mut out, order);
                out.append(
                    "   any acquisition consistent with this order cannot form a circular wait. (Havender)\n",
                );
                assert(out@ =~= head + safe_text(names(order@)));
            },
        },
        Outcome::Deadlock { cycle } => {
            out.append(
                "   [DEADLOCK]  a lock-ordering cycle exists -- a circular wait is possible\n\n",
            );
            push_cycle(&mut out, cycle);
            out.append("\n");
            push_advice(&mut out, cycle, r.self_loop_single_instance);
            assert(out@ =~= head + deadlock_text(
                constraint_views(cycle@),
                r.self_loop_single_instance,
            ));
        },
    }
    out
}

/// Lines of a message, each indented under the one before.
pub open spec fn joined(q: Seq<Name>) -> Name
    decreases q.len(),
{
    if q.len() == 0 {
        Seq::empty()
    } else if q.len() == 1 {
        q[0]
    } else {
        joined(q.drop_last()) + "\n  "@ + q.last()
    }
}

/// Joins error messages.
pub fn join_errors(errors: &Vec<String>) -> (r: String)
    ensures
        r@ == joined(names(errors@)),
{
    let ghost q = names(errors@);
    let mut out = String::new();
    let mut i: usize = 0;
    assert(q.take(0) =~= Seq::empty());
    while i < errors.len()
        invariant
            q == names(errors@),
            i <= errors@.len(),
            out@ == joined(q.take(i as int)),
        decreases errors@.len() - i,
    {
        assert(q.take(i + 1).drop_last() =~= q.take(i as int));
        assert(q.take(i + 1).last() == errors@[i as int]@);
        let ghost before = out@;
        if i > 0 {
            out.append("\n  ");
        }
        out.append(errors[i].as_str());
        assert(out@ =~= joined(q.take(i + 1)));
        i = i + 1;
    }
    assert(q.take(i as int) =~= q);
    out
}

/// What is said of one input: the report, and whether it speaks against the
/// program.
pub struct Finding {
    pub text: String,
    pub bad: bool,
}

/// The mathematical value of a [`Finding`].
pub struct FindingV {
    pub text: Name,
    pub bad: bool,
}

impl View for Finding {
    type V = FindingV;

    open spec fn view(&self) -> FindingV {
        FindingV { text: self.text@, bad: self.bad }
    }
}

/// What is said of a program: it is bad if it may deadlock, or if the analysis
/// stopped early.
pub open spec fn finding(p: ProgramV) -> FindingV {
    FindingV {
        text: report_text(analysis(p), p.incomplete),
        bad: analysis(p).outcome is Deadlock || p.incomplete is Some,
    }
}

/// The program of a source file.
pub open spec fn program_of_source(src: Name, path: Name) -> Result<ProgramV, Name> {
    match parsed(src) {
        Err(e) => Err(e),
        Ok(items) => match lowering(items, base_name(path)) {
            Err(errors) => Err(joined(errors)),
            Ok(p) => Ok(p),
        },
    }
}

/// What is said of a program.
fn judge(p: &Program) -> (r: Finding)
    requires
        p.wf(),
    ensures
        r@ == finding(p@),
{
    let report = analyze(p);
    let text = print_report(&report, &p.incomplete);
    let deadlock = match &report.outcome {
        Outcome::Deadlock { cycle: _ } => true,
        Outcome::DeadlockFree { order: _ } => false,
    };
    Finding { text, bad: deadlock || p.incomplete.is_some() }
}

/// The program of a source file.
fn compile(src: &str, path: &str) -> (r: Result<Program, String>)
    ensures
        match r {
            Ok(p) => p.wf() && program_of_source(src@, path@) == Ok::<ProgramV, Name>(p@),
            Err(e) => program_of_source(src@, path@) == Err::<ProgramV, Name>(e@),
        },
{
    let file = basename(path);
    let ast = parse(src)?;
    match lower(&ast, file.as_str()) {
        Ok(p) => Ok(p),
        Err(errors) => Err(join_errors(&errors)),
    }
}

/// Analyzes the source file at `path`, whose text is `src`.
pub fn check_source(src: &str, path: &str) -> (r: Result<Finding, String>)
    ensures
        match r {
            Ok(f) => program_of_source(src@, path@) is Ok && f@ == finding(
                program_of_source(src@, path@)->Ok_0,
            ),
            Err(e) => program_of_source(src@, path@) == Err::<ProgramV, Name>(e@),
        },
{
    let p = compile(src, path)?;
    Ok(judge(&p))
}

/// Analyzes a document of pre-lowered events.
pub fn check_events(src: &str) -> (r: Result<Finding, String>)
    ensures
        match r {
            Ok(f) => reading(src@) is Ok && f@ == finding(reading(src@)->Ok_0),
            Err(e) => reading(src@) == Err::<ProgramV, Name>(e@),
        },
{
    let p = crate::events::parse(src)?;
    Ok(judge(&p))
}

/// The lock-order graph of the source file at `path`, whose text is `src`.
pub fn dot_source(src: &str, path: &str) -> (r: Result<String, String>)
    ensures
        match r {
            Ok(s) => program_of_source(src@, path@) is Ok && s@ == ({
                let events = program_of_source(src@, path@)->Ok_0.events;
                dot_document(dot_edges(events, sorted(held_classes(events))))
            }),
            Err(e) => program_of_source(src@, path@) == Err::<ProgramV, Name>(e@),
        },
{
    let p = compile(src, path)?;
    Ok(to_dot(&p))
}

}
