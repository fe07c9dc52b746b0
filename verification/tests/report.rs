use whorl::model::{Event, Program};
use whorl::namemap::NameMap;
use whorl::report::{
    basename, check_events, check_source, disp, dot_source, join_errors, print_report,
};
use whorl::solver::{analyze, render_dot, to_dot, DotEdge};

fn event(function: &str, site: &str, held: &[&str], acquires: &str) -> Event {
    Event {
        function: function.to_string(),
        site: site.to_string(),
        held: held.iter().map(|s| s.to_string()).collect(),
        acquires: acquires.to_string(),
    }
}

fn program(events: Vec<Event>) -> Program {
    Program {
        name: "p".to_string(),
        events,
        class_instances: NameMap::new(),
        incomplete: None,
    }
}

#[test]
fn base_names() {
    assert_eq!(basename("a/b/c.whorl"), "c.whorl");
    assert_eq!(basename("a\\b\\c.whorl"), "c.whorl");
    assert_eq!(basename("c.whorl"), "c.whorl");
    assert_eq!(basename("a/"), "");
    assert_eq!(basename(""), "");
}

#[test]
fn the_processor_is_shown_readably() {
    assert_eq!(disp("<cpu>"), "CPU(preemption)");
    assert_eq!(disp("Account"), "Account");
}

#[test]
fn the_two_account_transfer_is_reported() {
    let src = "lock alice : Account\nlock bob   : Account\n\nfn transfer() {\n    with alice {\n        with bob { }\n    }\n}\n";
    let found = check_source(src, "examples/two_account_transfer.whorl").unwrap();
    assert!(found.bad);
    assert_eq!(
        found.text,
        "== whorl :: lock-ordering analysis :: two_account_transfer.whorl ==\n   \
         2 events, 1 lock class, 1 ordering constraint\n\n   \
         [DEADLOCK]  a lock-ordering cycle exists -- a circular wait is possible\n\n     \
         Account  <  Account   via transfer @ two_account_transfer.whorl:6\n\n   \
         two locks of class 'Account' are acquired without a defined order.\n   \
         one thread may hold x and wait for y while another holds y and waits for x.\n   \
         fix: acquire same-class locks together with `with ordered(a, b) { .. }`.\n"
    );
}

#[test]
fn a_safe_program_is_reported_with_its_order() {
    let src = "lock a: A\nlock b: B\nfn f() { with a { with b { } } }";
    let found = check_source(src, "ok.whorl").unwrap();
    assert!(!found.bad);
    assert_eq!(
        found.text,
        "== whorl :: lock-ordering analysis :: ok.whorl ==\n   \
         2 events, 2 lock classes, 1 ordering constraint\n\n   \
         [SAFE]  the lock graph is acyclic -- no lock-ordering deadlock is possible\n\n   \
         a valid global lock order:\n     1. A\n     2. B\n   \
         any acquisition consistent with this order cannot form a circular wait. (Havender)\n"
    );
}

#[test]
fn a_single_event_is_counted_in_the_singular() {
    let found = check_source("lock a: A\nfn f() { with a { } }", "x").unwrap();
    assert!(found.text.contains("   1 event, 1 lock class, 0 ordering constraints\n"));
}

#[test]
fn one_lock_taken_twice_is_reported_as_such() {
    let found = check_source("lock a: A\nfn f() { with a { with a { } } }", "x").unwrap();
    assert!(found.bad);
    assert!(found.text.ends_with(
        "   the single lock of class 'A' is re-acquired while already held.\n   \
         if that lock is not reentrant, a thread deadlocks against itself here.\n   \
         fix: avoid re-acquiring the lock, or make it reentrant.\n"
    ));
}

#[test]
fn a_ring_is_reported_with_its_sites() {
    let src = "lock s: Buf\nisr fn on_rx() { with s { } }\nfn task() { with s { } }";
    let found = check_source(src, "isr.whorl").unwrap();
    assert!(found.bad);
    assert!(found.text.ends_with(
        "     Buf  <  CPU(preemption)   via task @ isr.whorl:3\n     \
         CPU(preemption)  <  Buf   via on_rx @ isr.whorl:2\n\n   \
         these constraints form a cycle: no consistent global lock order exists,\n   \
         so threads acquiring these locks can wait on each other in a ring.\n"
    ));
}

#[test]
fn a_partial_analysis_is_not_conclusive() {
    let p = program(vec![event("f", "s:1", &["A"], "B")]);
    let text = print_report(&analyze(&p), &Some("budget".to_string()));
    assert!(text.ends_with(
        "   [INCOMPLETE]  analysis stopped early -- the verdict is NOT conclusive\n\n   budget\n   \
         no deadlock was found in the partial analysis, but undetected ones may remain.\n"
    ));
    let found = check_events("{ \"events\": [], \"incomplete\": \"budget\" }").unwrap();
    assert!(found.bad);
}

#[test]
fn a_deadlock_in_a_partial_analysis_is_reported() {
    let p = program(vec![event("f", "s:1", &["A"], "A")]);
    let text = print_report(&analyze(&p), &Some("budget".to_string()));
    assert!(text.contains("[DEADLOCK]"));
    assert!(!text.contains("budget"));
}

#[test]
fn errors_are_joined_by_lines() {
    let e = vec!["one".to_string(), "two".to_string(), "three".to_string()];
    assert_eq!(join_errors(&e), "one\n  two\n  three");
    assert_eq!(join_errors(&vec![]), "");
    let src = "fn f() { a() b() }";
    let err = match check_source(src, "dir/x.whorl") {
        Ok(_) => panic!("expected an error"),
        Err(e) => e,
    };
    assert_eq!(
        err,
        "x.whorl:1: call to undefined function 'a'\n  x.whorl:1: call to undefined function 'b'"
    );
    assert_eq!(dot_source(src, "dir/x.whorl"), Err(err));
}

#[test]
fn syntax_errors_are_passed_on() {
    assert_eq!(
        dot_source("lock", "x"),
        Err("unexpected end of input, expected an identifier".to_string())
    );
    assert!(matches!(check_source("lock", "x"), Err(e) if e == "unexpected end of input, expected an identifier"));
    assert!(matches!(check_events("{}"), Err(e) if e == "top-level \"events\" array is missing"));
}

#[test]
fn the_graph_shows_the_cycle_in_red() {
    let p = program(vec![
        event("f", "f:1", &["A"], "B"),
        event("g", "g:2", &["B"], "A"),
        event("h", "h:3", &["A"], "C"),
    ]);
    assert_eq!(
        to_dot(&p),
        "digraph whorl {\n  rankdir=LR;\n  node [shape=box, fontname=\"monospace\"];\n  \
         \"A\" -> \"B\" [color=red, penwidth=2];\n  \"A\" -> \"C\";\n  \
         \"B\" -> \"A\" [color=red, penwidth=2];\n}\n"
    );
}

#[test]
fn class_names_are_quoted_in_the_graph() {
    let p = program(vec![event("f", "f:1", &["A"], "B\"")]);
    assert!(to_dot(&p).contains("  \"A\" -> \"B\\\"\";\n"));
}

#[test]
fn graph_text() {
    let edges = vec![
        DotEdge {
            from: "\"A\"".to_string(),
            to: "\"B\\\"\"".to_string(),
            on_cycle: true,
        },
        DotEdge {
            from: "\"B\\\"\"".to_string(),
            to: "\"C\"".to_string(),
            on_cycle: false,
        },
    ];
    assert_eq!(
        render_dot(&edges),
        "digraph whorl {\n  rankdir=LR;\n  node [shape=box, fontname=\"monospace\"];\n  \
         \"A\" -> \"B\\\"\" [color=red, penwidth=2];\n  \"B\\\"\" -> \"C\";\n}\n"
    );
    assert_eq!(
        render_dot(&vec![]),
        "digraph whorl {\n  rankdir=LR;\n  node [shape=box, fontname=\"monospace\"];\n}\n"
    );
}
