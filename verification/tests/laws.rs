use whorl::frontend::lower;
use whorl::graph::{find_cycle, removal};
use whorl::inherit::{append_all, append_new, inheritance, inherited, Link};
use whorl::model::{Event, Program};
use whorl::namemap::NameMap;
use whorl::ordset::NameSet;
use whorl::parser::parse;
use whorl::report::check_source;
use whorl::solver::{analyze, Outcome};
use whorl::text::{chars_of, clone_names, has_name, position, push_dec, str_eq, str_lt, text_of};
use whorl::unicode::{blank, letter, letter_or_number, push_bracketed, push_list};

fn event(held: &[&str], acquires: &str) -> Event {
    Event {
        function: "f".to_string(),
        site: format!("s:{acquires}"),
        held: held.iter().map(|s| s.to_string()).collect(),
        acquires: acquires.to_string(),
    }
}

fn program(events: Vec<Event>) -> Program {
    Program {
        name: "p".to_string(),
        events,
        class_instances: NameMap::new(),
        incomplete: None,
    }
}

fn source(src: &str) -> Program {
    lower(&parse(src).expect("parse"), "x").expect("lower")
}

fn edges(p: &Program) -> Vec<(String, String)> {
    let mut q = Vec::new();
    for e in &p.events {
        for h in &e.held {
            let x = (h.clone(), e.acquires.clone());
            if !q.contains(&x) {
                q.push(x);
            }
        }
    }
    q.sort();
    q
}

fn link(source: &str, target: &str, held: &[&str]) -> Link {
    Link {
        source: source.to_string(),
        target: target.to_string(),
        held: held.iter().map(|s| s.to_string()).collect(),
    }
}

fn strings(q: &[&str]) -> Vec<String> {
    q.iter().map(|s| s.to_string()).collect()
}

#[test]
fn the_order_respects_every_edge() {
    let p = program(vec![
        event(&["C"], "D"),
        event(&["A", "B"], "C"),
        event(&[], "E"),
        event(&["A"], "B"),
    ]);
    let report = analyze(&p);
    assert_eq!((report.event_count, report.class_count, report.constraint_count), (4, 5, 4));
    let Outcome::DeadlockFree { order } = report.outcome else {
        panic!("expected an order")
    };
    assert_eq!(order.len(), 5);
    for (before, after) in edges(&p) {
        let at = |c: &str| order.iter().position(|x| x == c).unwrap();
        assert!(at(&before) < at(&after));
    }
    // Classes come in the order in which they become free.
    assert_eq!(order, strings(&["A", "E", "B", "C", "D"]));
}

#[test]
fn the_cycle_is_witnessed_and_closed() {
    let p = program(vec![
        event(&["X"], "A"),
        event(&["A"], "B"),
        event(&["B"], "C"),
        event(&["C"], "A"),
        event(&["C"], "Y"),
    ]);
    let Outcome::Deadlock { cycle } = analyze(&p).outcome else {
        panic!("expected a cycle")
    };
    assert_eq!(cycle.len(), 3);
    for (i, c) in cycle.iter().enumerate() {
        assert_eq!(c.after, cycle[(i + 1) % 3].before);
        assert_eq!(c.site, format!("s:{}", c.after));
        assert!(edges(&p).contains(&(c.before.clone(), c.after.clone())));
    }
}

#[test]
fn the_first_self_edge_is_reported_alone() {
    let p = program(vec![event(&["A"], "B"), event(&["B"], "A"), event(&["C"], "C")]);
    let Outcome::Deadlock { cycle } = analyze(&p).outcome else {
        panic!("expected a cycle")
    };
    assert_eq!(cycle.len(), 1);
    assert_eq!((cycle[0].before.as_str(), cycle[0].after.as_str()), ("C", "C"));
}

#[test]
fn the_first_event_of_an_edge_is_its_witness() {
    let mut late = event(&["A"], "A");
    late.site = "late".to_string();
    let p = program(vec![event(&["A"], "A"), late]);
    let Outcome::Deadlock { cycle } = analyze(&p).outcome else {
        panic!("expected a cycle")
    };
    assert_eq!(cycle[0].site, "s:A");
}

#[test]
fn a_deadlock_of_a_part_is_one_of_the_whole() {
    let part = || vec![event(&["A"], "B"), event(&["B"], "A")];
    let mut whole = part();
    whole.push(event(&["B"], "C"));
    whole.insert(0, event(&["C"], "D"));
    assert!(matches!(analyze(&program(part())).outcome, Outcome::Deadlock { .. }));
    assert!(matches!(analyze(&program(whole)).outcome, Outcome::Deadlock { .. }));
}

#[test]
fn no_events_are_safe() {
    let report = analyze(&program(vec![]));
    assert!(matches!(report.outcome, Outcome::DeadlockFree { order } if order.is_empty()));
    assert_eq!(report.class_count, 0);
}

#[test]
fn removal_and_rings() {
    // 0 -> 1 -> 2 -> 1, 3
    let adj = vec![vec![1], vec![2], vec![1], vec![]];
    let order = removal(&adj);
    assert_eq!(order, vec![0, 3]);
    assert_eq!(find_cycle(&adj, &order), vec![1, 2]);
    let adj = vec![vec![1], vec![]];
    assert_eq!(removal(&adj), vec![0, 1]);
    assert_eq!(find_cycle(&adj, &removal(&adj)), Vec::<usize>::new());
    // Whatever is taken away, a cycle is found where one remains.
    let adj = vec![vec![1, 3], vec![2], vec![0], vec![3]];
    assert_eq!(find_cycle(&adj, &vec![]), vec![0, 1, 2]);
    assert_eq!(find_cycle(&adj, &vec![1]), vec![3]);
    assert_eq!(find_cycle(&adj, &vec![1, 3]), Vec::<usize>::new());
}

#[test]
fn what_is_inherited_is_what_some_chain_of_calls_carries() {
    let links = vec![
        link("b", "c", &[]),
        link("a", "b", &["L", "M"]),
        link("c", "b", &["N"]),
        link("x", "y", &["Q"]),
    ];
    let m = inheritance(&links);
    assert_eq!(inherited(&m, "b"), strings(&["L", "M", "N"]));
    assert_eq!(inherited(&m, "c"), strings(&["L", "M", "N"]));
    assert_eq!(inherited(&m, "y"), strings(&["Q"]));
    assert!(inherited(&m, "a").is_empty());
}

#[test]
fn appending_names() {
    let mut q = strings(&["a"]);
    assert!(!append_new(&mut q, &strings(&["a", "a"])));
    assert!(append_new(&mut q, &strings(&["b", "a", "b"])));
    assert_eq!(q, strings(&["a", "b"]));
    append_all(&mut q, &strings(&["a"]));
    assert_eq!(q, strings(&["a", "b", "a"]));
}

#[test]
fn a_complete_analysis_has_exactly_the_edges_of_the_contexts() {
    let p = source(
        "lock a: A\nlock b: B\nlock c: C\n\
         fn leaf() { with c { } }\nfn x() { with a { leaf() } }\nfn y() { with b { leaf() } }",
    );
    assert!(p.incomplete.is_none());
    let want = vec![
        ("A".to_string(), "C".to_string()),
        ("B".to_string(), "C".to_string()),
    ];
    assert_eq!(edges(&p), want);
}

#[test]
fn masked_code_is_not_preempted() {
    let src = |body: &str| format!("lock s: S\nisr fn on() {{ with s {{ }} }}\nfn f() {{ {body} }}");
    let masked = source(&src("mask { with s { } }"));
    assert!(!edges(&masked).contains(&("S".to_string(), "<cpu>".to_string())));
    let open = source(&src("with s { }"));
    assert!(edges(&open).contains(&("S".to_string(), "<cpu>".to_string())));
}

#[test]
fn a_couple_hides_only_its_own_class() {
    let p = source(
        "lock a: N\nlock b: N\nlock m: M\nfn f() { with m { couple N { with a { with b { with m { } } } } } }",
    );
    let want = vec![
        ("M".to_string(), "M".to_string()),
        ("M".to_string(), "N".to_string()),
        ("N".to_string(), "M".to_string()),
    ];
    assert_eq!(edges(&p), want);
}

#[test]
fn safe_text_stays_safe_under_renaming_of_files() {
    let src = "lock a: A\nlock b: B\nfn f() { with a { with b { } } }\nfn g() { with a { with b { } } }";
    assert!(!check_source(src, "one").unwrap().bad);
    assert!(!check_source(src, "dir/two").unwrap().bad);
}

#[test]
fn text_functions() {
    assert_eq!(chars_of("h\u{e9}!"), vec!['h', '\u{e9}', '!']);
    assert_eq!(text_of(&vec!['a', 'b', 'c', 'd'], 1, 3), "bc");
    assert!(str_eq("abc", "abc") && !str_eq("abc", "ab") && !str_eq("ab", "abc"));
    assert!(str_lt("ab", "abc") && str_lt("abc", "abd") && !str_lt("b", "a") && !str_lt("a", "a"));
    assert!(str_lt("\u{7f}", "\u{e9}"));
    let mut s = "n=".to_string();
    push_dec(&mut s, 0);
    push_dec(&mut s, 1907);
    push_dec(&mut s, usize::MAX);
    assert_eq!(s, format!("n=01907{}", usize::MAX));
    let q = strings(&["x", "y", "y"]);
    assert_eq!(position(&q, "y"), Some(1));
    assert_eq!(position(&q, "z"), None);
    assert!(has_name(&q, "x"));
    assert_eq!(clone_names(&q), q);
}

#[test]
fn name_sets_stay_sorted() {
    let mut s = NameSet::new();
    assert!(s.insert("m") && s.insert("a") && s.insert("z") && !s.insert("a"));
    assert_eq!(s.to_names(), strings(&["a", "m", "z"]));
    s.remove("m");
    s.remove("nope");
    assert_eq!((s.len(), s.contains("m"), s.contains("z")), (2, false, true));
    let mut t = NameSet::singleton("b");
    assert!(t.extend(&s));
    assert!(!t.extend(&s));
    assert_eq!(t.copy().to_names(), strings(&["a", "b", "z"]));
}

#[test]
fn name_maps_keep_one_value_a_name() {
    let mut m: NameMap<usize> = NameMap::new();
    assert!(!m.insert("a".to_string(), 1));
    assert!(m.insert("a".to_string(), 2));
    m.or_insert("a", 3);
    m.or_insert("b", 4);
    assert_eq!((m.get("a"), m.get("b"), m.get("c")), (Some(&2), Some(&4), None));
    assert_eq!((m.len(), m.find("b"), m.contains_key("c")), (2, Some(1), false));
}

#[test]
fn white_space_is_that_of_the_standard_library() {
    for c in '\u{0}'..=char::MAX {
        assert_eq!(blank(c), c.is_whitespace());
    }
}

#[test]
fn letters_and_numbers_are_those_of_the_standard_library() {
    for c in '\u{0}'..=char::MAX {
        assert_eq!(letter(c), c.is_alphabetic());
        assert_eq!(letter_or_number(c), c.is_alphanumeric());
    }
}

#[test]
fn characters_and_lists() {
    assert!(letter('a') && letter('Z') && letter('\u{e9}') && !letter('1') && !letter('_'));
    assert!(!letter('\u{d7}'));
    assert!(letter_or_number('7') && letter_or_number('\u{bd}') && !letter_or_number('-'));
    assert!(blank(' ') && blank('\x0B') && blank('\u{a0}') && !blank('x') && !blank('\u{200b}'));
    let mut s = "found ".to_string();
    push_list(&mut s, &strings(&["A", "B\n"]));
    assert_eq!(s, "found [\"A\", \"B\\n\"]");
    let mut s = String::new();
    push_bracketed(&mut s, &strings(&["1", "2", "3"]));
    push_bracketed(&mut s, &vec![]);
    assert_eq!(s, "[1, 2, 3][]");
}
