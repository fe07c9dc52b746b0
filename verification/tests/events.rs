use whorl::events::parse;
use whorl::solver::{analyze, Outcome};

const DEADLOCK_JSON: &str = r#"{
  "name": "mir",
  "events": [
    { "function": "transfer", "site": "lib.rs:7", "acquires": "Mutex<i64>::bal", "held": [] },
    { "function": "transfer", "site": "lib.rs:8", "acquires": "Mutex<i64>::bal", "held": ["Mutex<i64>::bal"] }
  ],
  "class_instances": {
    "Mutex<i64>::bal": 2
  }
}"#;

#[test]
fn parses_and_finds_the_two_account_deadlock() {
    let prog = parse(DEADLOCK_JSON).unwrap();
    assert_eq!(prog.events.len(), 2);
    assert_eq!(prog.class_instances.get("Mutex<i64>::bal"), Some(&2));
    let report = analyze(&prog);
    assert!(matches!(report.outcome, Outcome::Deadlock { .. }));
    assert!(!report.self_loop_single_instance);
}

#[test]
fn parses_a_safe_program() {
    let src = r#"{
  "events": [
    { "function": "p", "site": "a.rs:1", "acquires": "A", "held": [] },
    { "function": "p", "site": "a.rs:2", "acquires": "B", "held": ["A"] }
  ],
  "class_instances": { "A": 1, "B": 1 }
}"#;
    let prog = parse(src).unwrap();
    let report = analyze(&prog);
    assert!(matches!(report.outcome, Outcome::DeadlockFree { .. }));
}

#[test]
fn missing_class_counts_default_to_two_instances() {
    let src = r#"{ "events": [
            { "function": "f", "site": "s:1", "acquires": "C", "held": ["C"] }
        ] }"#;
    let prog = parse(src).unwrap();
    assert_eq!(prog.class_instances.get("C"), Some(&2));
    let report = analyze(&prog);
    assert!(matches!(report.outcome, Outcome::Deadlock { .. }));
    // Two assumed instances => cross-instance explanation, not reentrancy.
    assert!(!report.self_loop_single_instance);
}

#[test]
fn call_edges_propagate_held_sets_into_callees() {
    // locker_a holds A and calls helper, which locks B; locker_b locks B
    // then A. Without the call edge this is (unsoundly) safe; with it the
    // helper's B acquire happens while A is held -> cycle A < B < A.
    let src = r#"{
  "events": [
    { "function": "locker_a", "site": "s:1", "acquires": "A", "held": [] },
    { "function": "helper",   "site": "s:2", "acquires": "B", "held": [] },
    { "function": "locker_b", "site": "s:3", "acquires": "B", "held": [] },
    { "function": "locker_b", "site": "s:4", "acquires": "A", "held": ["B"] }
  ],
  "class_instances": { "A": 1, "B": 1 },
  "calls": [
    { "function": "locker_a", "callee": "helper", "held": ["A"] }
  ]
}"#;
    let prog = parse(src).unwrap();
    let helper_event = prog.events.iter().find(|e| e.function == "helper").unwrap();
    assert_eq!(helper_event.held, vec!["A".to_string()]);
    let report = analyze(&prog);
    assert!(matches!(report.outcome, Outcome::Deadlock { .. }));
}

#[test]
fn entry_may_is_transitive_over_call_chains() {
    // a holds L and calls b; b calls c; c locks M. The L-held context must
    // reach c through the chain.
    let src = r#"{
  "events": [
    { "function": "a", "site": "s:1", "acquires": "L", "held": [] },
    { "function": "c", "site": "s:2", "acquires": "M", "held": [] }
  ],
  "calls": [
    { "function": "b", "callee": "c", "held": [] },
    { "function": "a", "callee": "b", "held": ["L"] }
  ]
}"#;
    let prog = parse(src).unwrap();
    let c_event = prog.events.iter().find(|e| e.function == "c").unwrap();
    assert!(c_event.held.contains(&"L".to_string()));
}

#[test]
fn closure_passed_to_a_callback_taker_is_resolved() {
    // with_a holds A and calls its parameter #2; path1 passes a closure that
    // locks B. Joining the two gives A < B, which closes a cycle with
    // path2's B < A. Without the join this reads SAFE (a false negative).
    let src = r#"{
  "events": [
    { "function": "with_a",             "site": "s:1", "acquires": "A", "held": [] },
    { "function": "path1::{closure#0}", "site": "s:2", "acquires": "B", "held": [] },
    { "function": "path2",              "site": "s:3", "acquires": "B", "held": [] },
    { "function": "path2",              "site": "s:4", "acquires": "A", "held": ["B"] }
  ],
  "param_calls":  [ { "function": "with_a", "param": 2, "held": ["A"] } ],
  "closure_args": [ { "function": "path1", "callee": "with_a", "param": 2,
                      "closure": "path1::{closure#0}" } ]
}"#;
    let prog = parse(src).unwrap();
    let in_closure = prog
        .events
        .iter()
        .find(|e| e.function == "path1::{closure#0}")
        .unwrap();
    assert!(in_closure.held.contains(&"A".to_string()));
    assert!(prog.incomplete.is_none(), "the call was resolved");
    assert!(matches!(analyze(&prog).outcome, Outcome::Deadlock { .. }));
}

#[test]
fn unresolved_callback_under_a_held_lock_forces_incomplete() {
    // Nobody passes a callable to g's parameter, so the body it runs is
    // unknown. Edges are lost, so SAFE must not be claimed.
    let src = r#"{
  "events": [ { "function": "g", "site": "s:1", "acquires": "L", "held": [] } ],
  "param_calls": [ { "function": "g", "param": 1, "held": ["L"] } ]
}"#;
    let prog = parse(src).unwrap();
    assert!(prog.incomplete.is_some());
}

#[test]
fn one_benign_closure_does_not_whitewash_an_unknown_callable() {
    // A do-nothing closure passed at (with_a, #2) does not resolve the position
    // when another caller forwards an unnameable callable to it: resolution is
    // universal.
    let src = r#"{
  "events": [ { "function": "with_a", "site": "s:1", "acquires": "A", "held": [] } ],
  "param_calls":  [ { "function": "with_a", "param": 2, "held": ["A"] } ],
  "closure_args": [
    { "function": "benign",  "callee": "with_a", "param": 2, "closure": "benign::{closure#0}" },
    { "function": "forward", "callee": "with_a", "param": 2, "closure": "<unknown>" }
  ]
}"#;
    let prog = parse(src).unwrap();
    assert!(
        prog.incomplete.is_some(),
        "an unknown callable at the same position must still force incomplete"
    );
}

#[test]
fn a_lock_held_by_the_caller_counts_at_an_unresolved_callback() {
    // run_hook holds nothing itself, but its caller reaches it holding L.
    let src = r#"{
  "events": [ { "function": "under_l", "site": "s:1", "acquires": "L", "held": [] } ],
  "calls":       [ { "function": "under_l", "callee": "run_hook", "held": ["L"] } ],
  "param_calls": [ { "function": "run_hook", "param": 1, "held": [] } ]
}"#;
    let prog = parse(src).unwrap();
    let reason = prog.incomplete.expect("caller's lock must count");
    assert!(reason.contains("run_hook"));
}

#[test]
fn an_opaque_call_under_a_callers_lock_counts_too() {
    let src = r#"{
  "events": [ { "function": "under_l", "site": "s:1", "acquires": "L", "held": [] } ],
  "calls":        [ { "function": "under_l", "callee": "dispatch", "held": ["L"] } ],
  "opaque_calls": [ { "function": "dispatch", "site": "d.rs:3", "held": [] } ]
}"#;
    let prog = parse(src).unwrap();
    assert!(prog.incomplete.is_some());
}

#[test]
fn opaque_indirect_call_forces_incomplete() {
    let src = r#"{
  "events": [],
  "opaque_calls": [ { "function": "f", "site": "a.rs:9", "held": ["L"] } ]
}"#;
    let prog = parse(src).unwrap();
    let reason = prog.incomplete.expect("must be incomplete");
    assert!(reason.contains("a.rs:9"));
}

#[test]
fn callback_with_nothing_held_does_not_force_incomplete() {
    // No lock is held at the indirect call, so no ordering edge is lost:
    // the callee's own internal ordering is captured when its body is
    // analyzed on its own.
    let src = r#"{
  "events": [ { "function": "g", "site": "s:1", "acquires": "L", "held": [] } ],
  "param_calls": [ { "function": "g", "param": 1, "held": [] } ]
}"#;
    let prog = parse(src).unwrap();
    assert!(prog.incomplete.is_none());
}

#[test]
fn critical_section_vs_spinlock_cycle() {
    // cs_then_spin: enter CS, then lock spin inside the closure -> CS < spin.
    // spin_then_cs: hold spin, then enter CS -> spin < CS. Cycle => deadlock.
    let src = r#"{
  "events": [
    { "function": "cs_then_spin",             "site": "s:1", "acquires": "<critical-section>", "held": [] },
    { "function": "cs_then_spin::{closure#0}", "site": "s:2", "acquires": "spin",               "held": [] },
    { "function": "spin_then_cs",              "site": "s:3", "acquires": "spin",               "held": [] },
    { "function": "spin_then_cs",              "site": "s:4", "acquires": "<critical-section>", "held": ["spin"] }
  ],
  "calls": [
    { "function": "cs_then_spin", "callee": "cs_then_spin::{closure#0}", "held": ["<critical-section>"] }
  ]
}"#;
    let prog = parse(src).unwrap();
    let report = analyze(&prog);
    assert!(matches!(report.outcome, Outcome::Deadlock { .. }));
}

#[test]
fn nested_critical_sections_are_reentrant() {
    // A `with` inside a `with`: the inner entry inherits <critical-section>
    // from the outer via the call edge, but re-entering is not a deadlock.
    let src = r#"{
  "events": [
    { "function": "outer::{closure#0}", "site": "s:2", "acquires": "<critical-section>", "held": [] }
  ],
  "calls": [
    { "function": "f",                  "callee": "outer::{closure#0}", "held": ["<critical-section>"] }
  ]
}"#;
    let prog = parse(src).unwrap();
    let e = &prog.events[0];
    assert!(!e.held.contains(&"<critical-section>".to_string()));
    let report = analyze(&prog);
    assert!(matches!(report.outcome, Outcome::DeadlockFree { .. }));
}

#[test]
fn incomplete_reason_is_carried_through() {
    let src = r#"{ "events": [], "incomplete": "budget" }"#;
    let prog = parse(src).unwrap();
    assert_eq!(prog.incomplete.as_deref(), Some("budget"));
}

#[test]
fn escapes_and_rejects() {
    let src = r#"{ "events": [
            { "function": "a\"b\\c", "site": "s\n:1", "acquires": "C", "held": [] }
        ] }"#;
    let prog = parse(src).unwrap();
    assert_eq!(prog.events[0].function, "a\"b\\c");
    assert!(parse("{").is_err());
    assert!(parse("{}").is_err()); // no events array
    assert!(parse("{ \"events\": [ 1 ] }").is_err());
}
