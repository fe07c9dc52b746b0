use whorl::events::parse;
use whorl::json::{get, parse_document, position_of, Member, Value};
use whorl::model::Program;
use whorl::print::print_document;
use whorl::solver::{analyze, Outcome};

fn read(text: &str) -> Vec<Member> {
    match parse_document(text) {
        Ok(m) => m,
        Err(e) => panic!("{e}"),
    }
}

fn read_error(text: &str) -> String {
    match parse_document(text) {
        Ok(_) => panic!("expected an error"),
        Err(e) => e,
    }
}

fn events_error(text: &str) -> String {
    match parse(text) {
        Ok(_) => panic!("expected an error"),
        Err(e) => e,
    }
}

fn text_of(m: &Vec<Member>, key: &str) -> String {
    match get(m, key) {
        Some(Value::Str(s)) => s.clone(),
        _ => panic!("no text under {key}"),
    }
}

fn number_of(m: &Vec<Member>, key: &str) -> usize {
    match get(m, key) {
        Some(Value::Num(n)) => *n,
        _ => panic!("no number under {key}"),
    }
}

fn same(a: &Value, b: &Value) -> bool {
    match (a, b) {
        (Value::Str(x), Value::Str(y)) => x == y,
        (Value::Num(x), Value::Num(y)) => x == y,
        (Value::Arr(x), Value::Arr(y)) => {
            x.len() == y.len() && x.iter().zip(y.iter()).all(|(p, q)| same(p, q))
        }
        (Value::Obj(x), Value::Obj(y)) => same_members(x, y),
        _ => false,
    }
}

fn same_members(a: &Vec<Member>, b: &Vec<Member>) -> bool {
    a.len() == b.len()
        && a.iter()
            .zip(b.iter())
            .all(|(p, q)| p.key == q.key && same(&p.value, &q.value))
}

fn member(key: &str, value: Value) -> Member {
    Member {
        key: key.to_string(),
        value,
    }
}

fn held(p: &Program, function: &str) -> Vec<String> {
    let e = p.events.iter().find(|e| e.function == function).unwrap();
    e.held.clone()
}

#[test]
fn escapes_are_read() {
    let m = read("{\"k\": \"a\\\"b\\\\c\\/d\\ne\\tf\\rg\"}");
    assert_eq!(text_of(&m, "k"), "a\"b\\c/d\ne\tf\rg");
    let m = read("{\"k\": \"\\u0041\\u00e9\\u20AC\"}");
    assert_eq!(text_of(&m, "k"), "A\u{e9}\u{20ac}");
    // A code that is no character reads as the replacement character.
    let m = read("{\"k\": \"\\ud800\"}");
    assert_eq!(text_of(&m, "k"), "\u{fffd}");
    // A plus sign may stand in place of the first digit.
    let m = read("{\"k\": \"\\u+041\"}");
    assert_eq!(text_of(&m, "k"), "A");
    let m = read("{\"k\": \"\\b\\f\"}");
    assert_eq!(text_of(&m, "k"), "\u{8}\u{c}");
    let m = read("{\"\u{e9}\": \"\u{20ac}\"}");
    assert_eq!(text_of(&m, "\u{e9}"), "\u{20ac}");
}

#[test]
fn surrogate_pairs_are_one_character() {
    let text = |escapes: &str| text_of(&read(&format!("{{\"k\": \"{escapes}\"}}")), "k");
    assert_eq!(text("\\ud83d\\ude00"), "\u{1f600}");
    assert_eq!(text("\\uD800\\uDC00!"), "\u{10000}!");
    assert_eq!(text("\\uDBFF\\uDFFF"), "\u{10ffff}");
    // Half a pair, a pair the wrong way round, and a half before another escape.
    assert_eq!(text("\\ude00"), "\u{fffd}");
    assert_eq!(text("\\ude00\\ud83d"), "\u{fffd}\u{fffd}");
    assert_eq!(text("\\ud83d\\u0041"), "\u{fffd}A");
    assert_eq!(text("\\ud83d\\n"), "\u{fffd}\n");
    assert_eq!(read_error("{\"\\ud83d\\u12g4\": 1}"), "bad \\u escape");
}

#[test]
fn a_repeated_key_keeps_its_last_value() {
    let m = read(" {\"a\": 1, \"b\": 2, \"a\": 3} ");
    assert_eq!(m.len(), 2);
    assert_eq!(number_of(&m, "a"), 3);
    assert_eq!(position_of(&m, "a"), Some(0));
    assert_eq!(position_of(&m, "b"), Some(1));
    assert_eq!(position_of(&m, "c"), None);
    assert!(get(&m, "c").is_none());
}

#[test]
fn numbers_fit_a_machine_word() {
    let m = read("{\"n\": 18446744073709551615}");
    assert_eq!(number_of(&m, "n"), usize::MAX);
    assert_eq!(read_error("{\"n\": 18446744073709551616}"), "bad number at byte 6");
}

#[test]
fn reader_messages() {
    assert_eq!(read_error(""), "expected '{' at byte 0, found None");
    assert_eq!(read_error("  [1]"), "expected '{' at byte 2, found Some('[')");
    assert_eq!(read_error("{"), "expected '\"' at byte 1, found None");
    assert_eq!(read_error("{\"a\" 1}"), "expected ':' at byte 5, found Some('1')");
    assert_eq!(read_error("{\"a\": }"), "unexpected Some('}') at byte 6");
    assert_eq!(read_error("{\"a\": -1}"), "unexpected Some('-') at byte 6");
    assert_eq!(read_error("{\"a\":"), "unexpected None at byte 5");
    assert_eq!(read_error("{\"a\": 1 2}"), "expected ',' or '}' at byte 8, found Some('2')");
    assert_eq!(read_error("{\"a\": [1 2]}"), "expected ',' or ']' at byte 9, found Some('2')");
    assert_eq!(read_error("{\"a\": [1"), "expected ',' or ']' at byte 8, found None");
    assert_eq!(read_error("{\"a\": \"x"), "unterminated string");
    assert_eq!(read_error("{\"\\q\": 1}"), "unknown escape Some('q') at byte 3");
    assert_eq!(read_error("{\"\\'\": 1}"), "unknown escape Some('\\'') at byte 3");
    assert_eq!(read_error("{\"\\"), "unknown escape None at byte 3");
    assert_eq!(read_error("{\"\\u12"), "truncated \\u escape");
    assert_eq!(read_error("{\"\\u12g4\": 1}"), "bad \\u escape");
    assert_eq!(read_error("{\"\\u-041\": 1}"), "bad \\u escape");
    // Offsets count bytes, and a character beyond ASCII shows as its first byte.
    assert_eq!(
        read_error("{\"\u{e9}\" \u{e9}}"),
        "expected ':' at byte 6, found Some('\u{c3}')"
    );
}

#[test]
fn empty_collections_are_read() {
    let m = read("{ \"a\": [ ], \"b\": { } }");
    assert!(matches!(get(&m, "a"), Some(Value::Arr(v)) if v.is_empty()));
    assert!(matches!(get(&m, "b"), Some(Value::Obj(v)) if v.is_empty()));
    assert!(read("{}").is_empty());
}

#[test]
fn what_is_written_is_read_back() {
    let m = vec![
        member("text", Value::Str("q\" b\\ n\n t\t r\r c\u{1} \u{e9}\u{20ac}".to_string())),
        member("n", Value::Num(907)),
        member(
            "list",
            Value::Arr(vec![
                Value::Num(0),
                Value::Arr(vec![]),
                Value::Obj(vec![member("", Value::Str(String::new()))]),
            ]),
        ),
        member("none", Value::Obj(vec![])),
    ];
    let text = print_document(&m);
    assert!(same_members(&read(&text), &m));
}

#[test]
fn event_messages() {
    assert_eq!(events_error("{}"), "top-level \"events\" array is missing");
    assert_eq!(events_error("{\"events\": [7]}"), "events[0] is not an object");
    assert_eq!(
        events_error("{\"events\": [{\"site\": \"s\"}]}"),
        "events[0] is missing string field \"function\""
    );
    assert_eq!(
        events_error("{\"events\": [{\"function\": \"f\", \"site\": 1}]}"),
        "events[0] is missing string field \"site\""
    );
    assert_eq!(
        events_error("{\"events\": [{\"function\": \"f\", \"site\": \"s\", \"acquires\": \"A\"}]}"),
        "events[0] is missing \"held\""
    );
    assert_eq!(
        events_error(
            "{\"events\": [{\"function\": \"f\", \"site\": \"s\", \"acquires\": \"A\", \"held\": [1]}]}"
        ),
        "events[0].held contains a non-string"
    );
    assert_eq!(
        events_error("{\"events\": [], \"class_instances\": {\"A\": \"two\"}}"),
        "class_instances[\"A\"] is not a number"
    );
    assert_eq!(events_error("{\"events\": [], \"calls\": [1]}"), "calls[0] is not an object");
    assert_eq!(
        events_error("{\"events\": [], \"calls\": [{\"function\": \"f\", \"callee\": \"g\"}]}"),
        "calls[0] is missing \"held\""
    );
    assert_eq!(
        events_error(
            "{\"events\": [], \"calls\": [{\"function\": \"f\", \"callee\": \"g\", \"held\": [[]]}]}"
        ),
        "calls[0].held contains a non-string"
    );
    assert_eq!(
        events_error("{\"events\": [], \"param_calls\": [1]}"),
        "param_calls[0] is not an object"
    );
    assert_eq!(
        events_error("{\"events\": [], \"param_calls\": [{\"function\": \"f\", \"param\": \"1\"}]}"),
        "entry[0] is missing number field \"param\""
    );
    assert_eq!(
        events_error("{\"events\": [], \"closure_args\": [1]}"),
        "closure_args[0] is not an object"
    );
    assert_eq!(
        events_error("{\"events\": [], \"closure_args\": [{\"callee\": \"f\", \"param\": 1}]}"),
        "events[0] is missing string field \"closure\""
    );
    assert_eq!(
        events_error("{\"events\": [], \"opaque_calls\": [1]}"),
        "opaque_calls[0] is not an object"
    );
    assert_eq!(
        events_error("{\"events\": [], \"opaque_calls\": [{\"function\": \"f\", \"site\": \"s\"}]}"),
        "opaque_calls[0] is missing \"held\""
    );
}

#[test]
fn names_default_to_events() {
    assert_eq!(parse("{\"events\": []}").unwrap().name, "events");
    assert_eq!(parse("{\"events\": [], \"name\": \"mir\"}").unwrap().name, "mir");
    assert_eq!(parse("{\"events\": [], \"name\": 1}").unwrap().name, "events");
}

#[test]
fn declared_counts_win_over_the_assumed_two() {
    let p = parse(
        "{\"events\": [{\"function\": \"f\", \"site\": \"s\", \"acquires\": \"A\", \"held\": [\"A\", \"B\"]}],
          \"class_instances\": {\"A\": 1}}",
    )
    .unwrap();
    assert_eq!(p.class_instances.get("A"), Some(&1));
    assert_eq!(p.class_instances.get("B"), Some(&2));
    assert!(analyze(&p).self_loop_single_instance);
}

#[test]
fn inherited_locks_come_once_and_after_the_local_ones() {
    let p = parse(
        "{\"events\": [{\"function\": \"c\", \"site\": \"s\", \"acquires\": \"Z\", \"held\": [\"M\", \"A\"]}],
          \"calls\": [{\"function\": \"a\", \"callee\": \"b\", \"held\": [\"A\", \"B\", \"A\"]},
                      {\"function\": \"b\", \"callee\": \"c\", \"held\": [\"C\"]},
                      {\"function\": \"c\", \"callee\": \"b\", \"held\": []}]}",
    )
    .unwrap();
    assert_eq!(held(&p, "c"), vec!["M", "A", "C", "B"]);
    assert_eq!(p.class_instances.get("C"), Some(&2));
}

#[test]
fn a_critical_section_inside_itself_orders_nothing() {
    let p = parse(
        "{\"events\": [{\"function\": \"f\", \"site\": \"s\", \"acquires\": \"<critical-section>\",
                        \"held\": [\"<critical-section>\", \"A\"]}]}",
    )
    .unwrap();
    assert_eq!(held(&p, "f"), vec!["A"]);
    assert!(matches!(analyze(&p).outcome, Outcome::DeadlockFree { .. }));
}

#[test]
fn unresolved_calls_name_what_is_held() {
    let p = parse(
        "{\"events\": [],
          \"param_calls\": [{\"function\": \"g\", \"param\": 2, \"held\": [\"L\"]}],
          \"calls\": [{\"function\": \"f\", \"callee\": \"g\", \"held\": [\"M\\\"\"]}]}",
    )
    .unwrap();
    assert_eq!(
        p.incomplete.as_deref(),
        Some(
            "g calls its parameter #2 while holding [\"L\", \"M\\\"\"], and not every callable \
             passed there could be resolved"
        )
    );
    let p = parse(
        "{\"events\": [], \"opaque_calls\": [{\"function\": \"f\", \"site\": \"a.rs:9\", \"held\": []},
                                           {\"function\": \"g\", \"site\": \"b.rs:1\", \"held\": [\"L\"]}]}",
    )
    .unwrap();
    assert_eq!(
        p.incomplete.as_deref(),
        Some(
            "unresolved indirect call (fn pointer, trait object or unnameable callable) at b.rs:1 \
             in g while holding [\"L\"]"
        )
    );
}
