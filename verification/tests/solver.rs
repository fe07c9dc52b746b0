use whorl::model::{Event, Program};
use whorl::namemap::NameMap;
use whorl::solver::{analyze, Outcome};

fn ev(function: &str, site: &str, held: &[&str], acquires: &str) -> Event {
    Event {
        function: function.into(),
        site: site.into(),
        held: held.iter().map(|s| s.to_string()).collect(),
        acquires: acquires.into(),
    }
}

fn prog(events: Vec<Event>, instances: &[(&str, usize)]) -> Program {
    let mut class_instances = NameMap::new();
    for (c, n) in instances {
        class_instances.insert(c.to_string(), *n);
    }
    Program {
        name: "t".into(),
        events,
        class_instances,
        incomplete: None,
    }
}

#[test]
fn two_account_transfer_deadlocks() {
    let p = prog(
        vec![
            ev("transfer", "t:7", &[], "Account"),
            ev("transfer", "t:8", &["Account"], "Account"),
        ],
        &[("Account", 2)],
    );
    let r = analyze(&p);
    assert!(matches!(r.outcome, Outcome::Deadlock { .. }));
    assert!(!r.self_loop_single_instance);
}

#[test]
fn single_instance_self_acquire_is_flagged_but_marked() {
    let p = prog(
        vec![
            ev("a", "t:1", &[], "Singleton"),
            ev("b", "t:2", &["Singleton"], "Singleton"),
        ],
        &[("Singleton", 1)],
    );
    let r = analyze(&p);
    assert!(matches!(r.outcome, Outcome::Deadlock { .. }));
    assert!(r.self_loop_single_instance);
}

#[test]
fn three_lock_cycle_deadlocks() {
    let p = prog(
        vec![
            ev("f", "f:3", &["A"], "B"),
            ev("g", "g:5", &["B"], "C"),
            ev("h", "h:9", &["C"], "A"),
        ],
        &[("A", 1), ("B", 1), ("C", 1)],
    );
    match analyze(&p).outcome {
        Outcome::Deadlock { cycle } => assert_eq!(cycle.len(), 3),
        _ => panic!("expected a deadlock"),
    }
}

#[test]
fn consistent_hierarchy_is_safe_and_ordered() {
    let p = prog(
        vec![
            ev("open", "b:12", &["BankLock"], "Account"),
            ev("post", "b:20", &["BankLock", "Account"], "AuditLog"),
            ev("post", "b:21", &["Account"], "AuditLog"),
        ],
        &[("BankLock", 1), ("Account", 1), ("AuditLog", 1)],
    );
    match analyze(&p).outcome {
        Outcome::DeadlockFree { order } => {
            let pos = |c: &str| order.iter().position(|x| x == c).unwrap();
            assert!(pos("BankLock") < pos("Account"));
            assert!(pos("Account") < pos("AuditLog"));
        }
        _ => panic!("expected deadlock-free"),
    }
}
