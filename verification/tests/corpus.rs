use whorl::corpus::trace::{Mutex, RwLock, Trace};
use whorl::corpus::{
    accessor_class_split_deadlock, branch_deadlock, closure_call_deadlock, consistent_order_safe,
    cross_call_deadlock, cs_nested_safe, cs_spin_consistent_safe, cs_spin_deadlock,
    cs_two_data_safe, cycle, demo, demo2, deref_field_split_deadlock, double_lock_self,
    generic_class_split_deadlock, loop_reacquire_safe, mem_drop_release_safe, outer_lock_serializes,
    rwlock_nesting_safe, sequential_safe, three_lock_chain_safe, transfer_amount,
    two_account_deadlock, two_path_accessor_deadlock, two_statics_consistent_safe,
    two_statics_inverted_deadlock,
};
use whorl::solver::{analyze, Outcome};

fn deadlocks(t: Trace) -> bool {
    assert!(t.held.is_empty() && t.taken.is_empty());
    matches!(analyze(&t.into_program("case")).outcome, Outcome::Deadlock { .. })
}

/// The lock number `id`.
fn lock<T>(id: usize, value: T) -> Mutex<T> {
    Mutex { id, value }
}

#[test]
fn two_accounts() {
    let a = two_account_deadlock::Account { bal: lock(1, 1) };
    let b = two_account_deadlock::Account { bal: lock(2, 2) };
    let mut t = Trace::new();
    two_account_deadlock::transfer(&a, &b, &mut t);
    assert!(deadlocks(t));
}

#[test]
fn a_transfer_with_an_amount() {
    let mut a = transfer_amount::Account { balance: lock(1, 100) };
    let mut b = transfer_amount::Account { balance: lock(2, 0) };
    let mut t = Trace::new();
    transfer_amount::transfer(&mut a, &mut b, 10, &mut t);
    assert_eq!((a.balance.value, b.balance.value), (90, 10));
    assert_eq!((a.balance.id, b.balance.id), (1, 2));
    assert_eq!(t.events.len(), 2);
    assert!(deadlocks(t));
}

#[test]
fn a_branch() {
    let a = branch_deadlock::Account { bal: lock(1, 1) };
    let b = branch_deadlock::Account { bal: lock(2, 2) };
    let mut t = Trace::new();
    branch_deadlock::branchy(&a, &b, true, &mut t);
    branch_deadlock::branchy(&a, &b, false, &mut t);
    assert!(deadlocks(t));
    let mut t = Trace::new();
    branch_deadlock::branchy(&a, &b, false, &mut t);
    assert!(!deadlocks(t));
}

#[test]
fn a_lock_held_across_a_call() {
    let s = cross_call_deadlock::Sys { a: lock(1, 1), b: lock(2, 2) };
    let mut t = Trace::new();
    cross_call_deadlock::locker_a(&s, &mut t);
    cross_call_deadlock::locker_b(&s, &mut t);
    assert!(deadlocks(t));
}

#[test]
fn a_callback() {
    let s = closure_call_deadlock::Sys { a: lock(1, 1), b: lock(2, 2) };
    let mut t = Trace::new();
    closure_call_deadlock::path1(&s, &mut t);
    closure_call_deadlock::path2(&s, &mut t);
    assert!(deadlocks(t));
}

#[test]
fn a_lock_behind_an_accessor() {
    let s = accessor_class_split_deadlock::Sys { a: lock(1, 1), b: lock(2, 2) };
    let mut t = Trace::new();
    accessor_class_split_deadlock::field_route(&s, &mut t);
    accessor_class_split_deadlock::accessor_route(&s, &mut t);
    assert!(deadlocks(t));
}

#[test]
fn a_lock_behind_a_deref() {
    let s = deref_field_split_deadlock::S {
        a: deref_field_split_deadlock::W { inner: lock(1, 1) },
        b: lock(2, 2),
    };
    let mut t = Trace::new();
    deref_field_split_deadlock::t1(&s, &mut t);
    deref_field_split_deadlock::t2(&s, &mut t);
    assert!(deadlocks(t));
}

#[test]
fn a_generic_lock() {
    let p = generic_class_split_deadlock::Pair { a: lock(1, 1), b: lock(2, 2) };
    let mut t = Trace::new();
    generic_class_split_deadlock::lock_a_then_b(&p, &mut t);
    generic_class_split_deadlock::lock_b_then_a(&p, &mut t);
    assert!(deadlocks(t));
}

#[test]
fn an_accessor_with_two_paths() {
    let w = two_path_accessor_deadlock::W {
        a: lock(1, 1),
        b: lock(2, 2),
        c: lock(3, 3),
    };
    let mut t = Trace::new();
    two_path_accessor_deadlock::t1(&w, &mut t);
    two_path_accessor_deadlock::t2(&w, &mut t);
    assert!(deadlocks(t));
}

#[test]
fn two_statics() {
    let s = two_statics_inverted_deadlock::Statics { a: lock(1, 1), b: lock(2, 2) };
    let mut t = Trace::new();
    two_statics_inverted_deadlock::f(&s, &mut t);
    two_statics_inverted_deadlock::g(&s, &mut t);
    assert!(deadlocks(t));
    let s = two_statics_consistent_safe::Statics { a: lock(1, 1), b: lock(2, 2) };
    let mut t = Trace::new();
    two_statics_consistent_safe::f(&s, &mut t);
    two_statics_consistent_safe::g(&s, &mut t);
    assert!(!deadlocks(t));
}

#[test]
fn one_lock_twice() {
    let s = double_lock_self::S { m: lock(1, 1) };
    let mut t = Trace::new();
    // The second acquisition is never granted, and the first is never released.
    let stuck = double_lock_self::double(&s, &mut t);
    assert_eq!(stuck.site, "s.m.lock() #2");
    assert_eq!(t.held, vec!["S.m".to_string()]);
    assert_eq!(t.taken, vec![Some(1)]);
    let report = analyze(&t.into_program("case"));
    assert!(matches!(report.outcome, Outcome::Deadlock { .. }));
}

#[test]
fn a_cycle_over_two_functions() {
    let s = cycle::Sys { a: lock(1, 1), b: lock(2, 2) };
    let mut t = Trace::new();
    cycle::p(&s, &mut t);
    cycle::r(&s, &mut t);
    assert!(deadlocks(t));
}

#[test]
fn one_class_nested_and_in_turn() {
    let a = demo::Account { bal: lock(1, 1) };
    let b = demo::Account { bal: lock(2, 2) };
    let mut t = Trace::new();
    demo::transfer(&a, &b, &mut t);
    assert!(deadlocks(t));
    let mut t = Trace::new();
    demo::sequential(&a, &b, &mut t);
    assert!(!deadlocks(t));
}

#[test]
fn a_branch_and_a_reader() {
    let a = demo2::Account { bal: lock(1, 1) };
    let b = demo2::Account { bal: lock(2, 2) };
    let cfg = demo2::Cfg { data: RwLock { id: 3, value: 3 } };
    let mut t = Trace::new();
    demo2::branchy(&a, &b, true, &mut t);
    assert!(deadlocks(t));
    let mut t = Trace::new();
    demo2::rw(&a, &cfg, &mut t);
    assert!(!deadlocks(t));
}

#[test]
fn consistent_orders() {
    let s = consistent_order_safe::Sys { a: lock(1, 1), b: lock(2, 2) };
    let mut t = Trace::new();
    consistent_order_safe::p(&s, &mut t);
    consistent_order_safe::q(&s, &mut t);
    assert!(!deadlocks(t));
    let s = three_lock_chain_safe::Sys3 {
        a: lock(1, 1),
        b: lock(2, 2),
        c: lock(3, 3),
    };
    let mut t = Trace::new();
    three_lock_chain_safe::f1(&s, &mut t);
    three_lock_chain_safe::f2(&s, &mut t);
    three_lock_chain_safe::f3(&s, &mut t);
    assert!(!deadlocks(t));
    let s = rwlock_nesting_safe::S {
        m: lock(1, 1),
        r: RwLock { id: 2, value: 2 },
    };
    let mut t = Trace::new();
    rwlock_nesting_safe::a(&s, &mut t);
    rwlock_nesting_safe::b(&s, &mut t);
    assert!(!deadlocks(t));
}

#[test]
fn locks_taken_in_turn() {
    let a = sequential_safe::Account { bal: lock(1, 1) };
    let b = sequential_safe::Account { bal: lock(2, 2) };
    let mut t = Trace::new();
    sequential_safe::seq(&a, &b, &mut t);
    assert!(!deadlocks(t));
    let a = mem_drop_release_safe::Account { bal: lock(1, 1) };
    let b = mem_drop_release_safe::Account { bal: lock(2, 2) };
    let mut t = Trace::new();
    mem_drop_release_safe::seq(&a, &b, &mut t);
    assert!(!deadlocks(t));
    let s = loop_reacquire_safe::S { m: lock(1, 1) };
    let mut t = Trace::new();
    loop_reacquire_safe::pump(&s, 5, &mut t);
    assert_eq!(t.events.len(), 5);
    assert!(!deadlocks(t));
}

#[test]
fn an_outer_lock_does_not_help() {
    // Two inner locks are taken in opposite orders, though only ever under a
    // common outer lock: safe, but no order of classes shows it.
    let bank = outer_lock_serializes::Bank {
        guard: lock(0, ()),
        a: lock(1, 1),
        b: lock(2, 2),
    };
    let mut t = Trace::new();
    outer_lock_serializes::xfer(&bank, &mut t);
    outer_lock_serializes::refx(&bank, &mut t);
    assert!(deadlocks(t));
}

#[test]
fn critical_sections() {
    let mut d: u32 = 7;
    let mut t = Trace::new();
    cs_nested_safe::f(&mut d, &mut t);
    assert_eq!(d, 1);
    assert_eq!(t.events.len(), 2);
    assert!(!deadlocks(t));

    let mut s = cs_two_data_safe::Shared { a: 0, b: 0 };
    let mut t = Trace::new();
    cs_two_data_safe::f(&mut s, &mut t);
    assert_eq!((s.a, s.b), (1, 2));
    cs_two_data_safe::g(&mut s, &mut t);
    assert_eq!((s.a, s.b), (4, 3));
    assert!(!deadlocks(t));

    let mut s = cs_spin_consistent_safe::Shared { d: 0, spin: lock(9, 9) };
    let mut t = Trace::new();
    cs_spin_consistent_safe::f(&mut s, &mut t);
    cs_spin_consistent_safe::g(&mut s, &mut t);
    assert_eq!(s.d, 9);
    assert!(!deadlocks(t));
}

#[test]
fn a_critical_section_against_a_spinlock() {
    let mut s = cs_spin_deadlock::Shared { d: 0, spin: lock(9, 9) };
    let mut t = Trace::new();
    cs_spin_deadlock::cs_then_spin(&mut s, &mut t);
    assert_eq!(s.d, 9);
    cs_spin_deadlock::spin_then_cs(&mut s, &mut t);
    let report = analyze(&t.into_program("case"));
    let Outcome::Deadlock { cycle } = report.outcome else {
        panic!("expected a deadlock")
    };
    let ring: Vec<String> = cycle
        .iter()
        .map(|c| format!("{} < {} via {}", c.before, c.after, c.function))
        .collect();
    assert_eq!(
        ring,
        vec![
            "<critical-section> < SPIN via cs_then_spin::{closure#0}",
            "SPIN < <critical-section> via spin_then_cs",
        ]
    );
}
