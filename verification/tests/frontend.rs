use whorl::frontend::lower;
use whorl::parser;
use whorl::solver::{analyze, Outcome, Report};

fn report(src: &str) -> Report {
    let ast = parser::parse(src).expect("parse");
    let prog = lower(&ast, "test").expect("lower");
    analyze(&prog)
}
fn verdict(src: &str) -> Outcome {
    report(src).outcome
}

#[test]
fn nested_same_class_deadlocks() {
    let src = "lock a: Account\nlock b: Account\nfn t() { with a { with b { } } }";
    assert!(matches!(verdict(src), Outcome::Deadlock { .. }));
}
#[test]
fn ordered_alone_is_safe() {
    let src = "lock a: Account\nlock b: Account\nfn t() { with ordered(a, b) { } }";
    assert!(matches!(verdict(src), Outcome::DeadlockFree { .. }));
}
#[test]
fn ordered_under_enclosing_same_class_is_deadlock() {
    let src = "lock a: Account\nlock b: Account\nlock c: Account\nlock d: Account\n\
               fn f() { with c { with ordered(a, b) { } } }\n\
               fn h() { with a { with ordered(c, d) { } } }";
    assert!(matches!(verdict(src), Outcome::Deadlock { .. }));
}
#[test]
fn deadlock_across_a_direct_call() {
    let src = "lock acct: Account\nlock risk: RiskBook\n\
               fn take() { with risk { } }\n\
               fn agg() { with risk { with acct { } } }\n\
               fn reb() { with acct { take() } }";
    assert!(matches!(verdict(src), Outcome::Deadlock { .. }));
}
#[test]
fn consistent_hierarchy_is_safe() {
    let src = "lock bank: BankLock\nlock acct: Account\n\
               fn f() { with bank { with acct { } } }\n\
               fn g() { with bank { with acct { } } }";
    assert!(matches!(verdict(src), Outcome::DeadlockFree { .. }));
}

#[test]
fn deadlock_through_callback() {
    let src = "lock table: Table\nlock row: Row\n\
               fn helper(body) { with table { body() } }\n\
               fn lockrow() { with row { } }\n\
               fn noop() { }\n\
               fn import() { helper(lockrow) }\n\
               fn refresh() { with row { helper(noop) } }";
    assert!(matches!(verdict(src), Outcome::Deadlock { .. }));
}
#[test]
fn consistent_callback_use_is_safe() {
    let src = "lock table: Table\nlock row: Row\n\
               fn helper(body) { with table { body() } }\n\
               fn lockrow() { with row { } }\n\
               fn a() { helper(lockrow) }\n\
               fn b() { helper(lockrow) }";
    assert!(matches!(verdict(src), Outcome::DeadlockFree { .. }));
}
#[test]
fn callback_passed_through_two_helpers() {
    let src = "lock table: Table\nlock row: Row\n\
               fn outer(cb) { with table { inner(cb) } }\n\
               fn inner(cb) { cb() }\n\
               fn lockrow() { with row { } }\n\
               fn use_it() { outer(lockrow) }\n\
               fn lock_table() { with table { } }\n\
               fn refresh() { with row { lock_table() } }";
    assert!(matches!(verdict(src), Outcome::Deadlock { .. }));
}
#[test]
fn duplicate_parameter_is_rejected() {
    let ast = parser::parse("fn helper(cb, cb) { cb() }").unwrap();
    assert!(lower(&ast, "test").is_err());
}
#[test]
fn unbound_callback_entry_is_not_an_error() {
    let src = "lock table: Table\nfn helper(body) { with table { body() } }";
    assert!(matches!(verdict(src), Outcome::DeadlockFree { .. }));
}

#[test]
fn couple_makes_hand_over_hand_safe() {
    let src = "lock root: BTreeNode\nlock child: BTreeNode\nlock leaf: BTreeNode\n\
               fn descend() { couple BTreeNode { with root { with child { with leaf { } } } } }";
    assert!(matches!(verdict(src), Outcome::DeadlockFree { .. }));
}
#[test]
fn without_couple_same_class_nesting_is_deadlock() {
    let src = "lock root: BTreeNode\nlock child: BTreeNode\n\
               fn descend() { with root { with child { } } }";
    assert!(matches!(verdict(src), Outcome::Deadlock { .. }));
}
#[test]
fn couple_does_not_hide_cross_class_deadlock() {
    let src = "lock node: BTreeNode\nlock catalog: Catalog\n\
               fn descend() { couple BTreeNode { with node { with catalog { } } } }\n\
               fn reindex() { with catalog { with node { } } }";
    assert!(matches!(verdict(src), Outcome::Deadlock { .. }));
}
#[test]
fn couple_while_holding_same_class_outside_is_error() {
    let ast =
        parser::parse("lock a: N\nlock b: N\nfn f() { with a { couple N { with b { } } } }")
            .unwrap();
    assert!(lower(&ast, "test").is_err());
}
#[test]
fn couple_unknown_class_is_error() {
    let ast = parser::parse("fn f() { couple Nope { } }").unwrap();
    assert!(lower(&ast, "test").is_err());
}
#[test]
fn opposite_direction_couples_are_deadlock() {
    let src = "lock a: Node\nlock b: Node\n\
               fn fwd() { couple Node { with a { with b { } } } }\n\
               fn bwd() { couple Node { with b { with a { } } } }";
    assert!(matches!(verdict(src), Outcome::Deadlock { .. }));
}
#[test]
fn consistent_direction_couples_are_safe() {
    let src = "lock a: Node\nlock b: Node\n\
               fn p() { couple Node { with a { with b { } } } }\n\
               fn q() { couple Node { with a { with b { } } } }";
    assert!(matches!(verdict(src), Outcome::DeadlockFree { .. }));
}
#[test]
fn single_instance_couple_reentrant_is_deadlock() {
    let src = "lock only: Node\nfn descend() { couple Node { with only { with only { } } } }";
    assert!(matches!(verdict(src), Outcome::Deadlock { .. }));
}

#[test]
fn extern_contract_participates_in_cycle() {
    let src = "lock db: Db\nlock cache: Cache\n\
               extern fn vendor_flush acquires Cache, Db\n\
               fn write() { with db { with cache { } } }\n\
               fn sync() { vendor_flush() }";
    assert!(matches!(verdict(src), Outcome::Deadlock { .. }));
}
#[test]
fn extern_contract_consistent_is_safe() {
    let src = "lock db: Db\nlock cache: Cache\n\
               extern fn vendor_flush acquires Db, Cache\n\
               fn write() { with db { with cache { } } }\n\
               fn sync() { vendor_flush() }";
    assert!(matches!(verdict(src), Outcome::DeadlockFree { .. }));
}
#[test]
fn extern_as_callback_participates_in_cycle() {
    let src = "lock table: Table\nlock row: Row\n\
               extern fn vendor acquires Row\n\
               fn helper(body) { with table { body() } }\n\
               fn import() { helper(vendor) }\n\
               fn refresh() { with row { with table { } } }";
    assert!(matches!(verdict(src), Outcome::Deadlock { .. }));
}
#[test]
fn extern_as_callback_consistent_is_safe() {
    let src = "lock table: Table\nlock row: Row\n\
               extern fn vendor acquires Row\n\
               fn helper(body) { with table { body() } }\n\
               fn import() { helper(vendor) }\n\
               fn other() { with table { with row { } } }";
    assert!(matches!(verdict(src), Outcome::DeadlockFree { .. }));
}
#[test]
fn extern_with_no_contract_is_safe() {
    let src = "lock db: Db\nextern fn log_line\nfn f() { with db { log_line() } }";
    assert!(matches!(verdict(src), Outcome::DeadlockFree { .. }));
}
#[test]
fn extern_unknown_class_is_error() {
    let ast = parser::parse("lock db: Db\nextern fn x acquires Nope").unwrap();
    assert!(lower(&ast, "test").is_err());
}
#[test]
fn extern_name_colliding_with_fn_is_error() {
    let ast = parser::parse("extern fn dup\nfn dup() { }").unwrap();
    assert!(lower(&ast, "test").is_err());
}

#[test]
fn shared_callback_across_sites_stays_correct() {
    let src = "lock table: Table\nlock row: Row\n\
               fn helper(body) { with table { body() } }\n\
               fn lockrow() { with row { } }\n\
               fn a() { helper(lockrow) }\n\
               fn b() { helper(lockrow) }";
    assert!(matches!(verdict(src), Outcome::DeadlockFree { .. }));
}
#[test]
fn callback_undefined_arg_is_error() {
    let ast = parser::parse(
        "lock row: Row\nfn lockrow() { with row { } }\n\
         fn helper(body) { body(nope) }\nfn start() { helper(lockrow) }",
    )
    .unwrap();
    assert!(lower(&ast, "test").is_err());
}
#[test]
fn callback_wrong_arity_is_error() {
    let ast = parser::parse(
        "lock row: Row\nfn lockrow() { with row { } }\n\
         fn helper(body) { body(lockrow) }\nfn start() { helper(lockrow) }",
    )
    .unwrap();
    assert!(lower(&ast, "test").is_err());
}
#[test]
fn zero_cfa_known_false_positive_is_pinned() {
    let src = "lock a1: A\nlock a2: A\nlock b: B\n\
               fn apply(cb) { cb() }\n\
               fn get_b() { with b { } }\n\
               fn get_a2() { with a2 { } }\n\
               fn safe_path() { with a1 { apply(get_b) } }\n\
               fn other_path() { apply(get_a2) }";
    assert!(matches!(verdict(src), Outcome::Deadlock { .. }));
}

#[test]
fn isr_and_unmasked_task_share_lock_is_deadlock() {
    let src =
        "lock shared: Buf\nisr fn on_rx() { with shared { } }\nfn task() { with shared { } }";
    assert!(matches!(verdict(src), Outcome::Deadlock { .. }));
}
#[test]
fn isr_shared_lock_masked_in_task_is_safe() {
    let src = "lock shared: Buf\nisr fn on_rx() { with shared { } }\nfn task() { mask { with shared { } } }";
    assert!(matches!(verdict(src), Outcome::DeadlockFree { .. }));
}
#[test]
fn isr_on_different_lock_is_safe() {
    let src = "lock stat: Stat\nlock buf: Buf\n\
               isr fn on_rx() { with stat { } }\nfn task() { with buf { } }";
    assert!(matches!(verdict(src), Outcome::DeadlockFree { .. }));
}
#[test]
fn no_isr_means_no_preemption_machinery() {
    let src = "lock shared: Buf\nfn a() { with shared { } }\nfn b() { with shared { } }";
    assert!(matches!(verdict(src), Outcome::DeadlockFree { .. }));
}
#[test]
fn isr_deadlock_through_a_call_is_caught() {
    let src = "lock shared: Buf\n\
               fn touch() { with shared { } }\n\
               isr fn on_rx() { touch() }\n\
               fn task() { with shared { } }";
    assert!(matches!(verdict(src), Outcome::Deadlock { .. }));
}
#[test]
fn isr_lock_via_extern_unmasked_is_deadlock() {
    let src = "lock shared: Buf\nextern fn vendor_touch acquires Buf\n\
               isr fn on_rx() { with shared { } }\nfn task() { vendor_touch() }";
    assert!(matches!(verdict(src), Outcome::Deadlock { .. }));
}
#[test]
fn isr_lock_via_extern_masked_is_safe() {
    let src = "lock shared: Buf\nextern fn vendor_touch acquires Buf\n\
               isr fn on_rx() { with shared { } }\nfn task() { mask { vendor_touch() } }";
    assert!(matches!(verdict(src), Outcome::DeadlockFree { .. }));
}
#[test]
fn isr_invoked_unmasked_as_subroutine_is_deadlock() {
    // The handler called without a mask is a context of its own, and its
    // task-side preemption edge is recorded.
    let src = "lock ring: RingBuf\nisr fn on_rx() { with ring { } }\nfn poll() { on_rx() }";
    assert!(matches!(verdict(src), Outcome::Deadlock { .. }));
}

#[test]
fn held_set_blowup_resolves_definitively() {
    // 2^k distinct held-sets reach `sink` under exact enumeration; the
    // may-held fixpoint analyzes it in polynomial time with a definitive
    // verdict (no [INCOMPLETE]).
    let k: usize = 22;
    let mut src = String::from("lock target: T\n");
    for j in 0..k {
        src.push_str(&format!("lock l{j}: C{j}\n"));
    }
    src.push_str("fn sink() { with target { } }\n");
    for j in 0..k {
        src.push_str(&format!(
            "fn stage{j}() {{ with l{j} {{ stage{}() }} stage{}() }}\n",
            j + 1,
            j + 1
        ));
    }
    src.push_str(&format!("fn stage{k}() {{ sink() }}\n"));

    let ast = parser::parse(&src).unwrap();
    let prog = lower(&ast, "test").unwrap();
    assert!(
        prog.incomplete.is_none(),
        "must be definitive, not INCOMPLETE"
    );
    assert!(matches!(
        analyze(&prog).outcome,
        Outcome::DeadlockFree { .. }
    ));
}
#[test]
fn held_set_blowup_still_finds_a_real_deadlock() {
    // Same staged fan-out, but the sink inverts an order another path uses,
    // so a real cycle exists and must still be found despite the blowup.
    let k: usize = 22;
    let mut src = String::from("lock x: X\nlock y: Y\n");
    for j in 0..k {
        src.push_str(&format!("lock l{j}: C{j}\n"));
    }
    // sink: X then Y. inverter: Y then X. => X<Y and Y<X cycle.
    src.push_str("fn sink() { with x { with y { } } }\n");
    src.push_str("fn inverter() { with y { with x { } } }\n");
    for j in 0..k {
        src.push_str(&format!(
            "fn stage{j}() {{ with l{j} {{ stage{}() }} stage{}() }}\n",
            j + 1,
            j + 1
        ));
    }
    src.push_str(&format!("fn stage{k}() {{ sink() }}\n"));

    let ast = parser::parse(&src).unwrap();
    let prog = lower(&ast, "test").unwrap();
    assert!(
        prog.incomplete.is_none(),
        "must be definitive, not INCOMPLETE"
    );
    assert!(matches!(analyze(&prog).outcome, Outcome::Deadlock { .. }));
}
