use whorl::ast::{Ast, Item, Stmt};
use whorl::frontend::lower;
use whorl::model::Program;
use whorl::parser::{lex, parse, Tk};
use whorl::solver::{analyze, Outcome};

fn parse_error(src: &str) -> String {
    match parse(src) {
        Ok(_) => panic!("expected an error"),
        Err(e) => e,
    }
}

fn lowered(src: &str) -> Result<Program, Vec<String>> {
    let ast = parse(src).expect("parse");
    lower(&ast, "test")
}

fn lower_errors(src: &str) -> Vec<String> {
    match lowered(src) {
        Ok(_) => panic!("expected errors"),
        Err(e) => e,
    }
}

fn program(src: &str) -> Program {
    lowered(src).expect("lower")
}

fn deadlocks(src: &str) -> bool {
    matches!(analyze(&program(src)).outcome, Outcome::Deadlock { .. })
}

fn shown(p: &Program) -> Vec<String> {
    p.events
        .iter()
        .map(|e| format!("{} {} [{}] {}", e.function, e.site, e.held.join(","), e.acquires))
        .collect()
}

#[test]
fn lexer_counts_lines_and_skips_comments() {
    let toks = lex("lock a // the rest { is skipped\n: A\n\n(,)").unwrap();
    let lines: Vec<usize> = toks.iter().map(|t| t.line).collect();
    assert_eq!(lines, vec![1, 1, 2, 2, 4, 4, 4]);
    assert!(matches!(&toks[1].tk, Tk::Ident(s) if s == "a"));
    assert!(matches!(toks[2].tk, Tk::Colon));
    assert!(matches!(toks[4].tk, Tk::LParen));
    assert!(matches!(toks[5].tk, Tk::Comma));
    assert!(matches!(toks[6].tk, Tk::RParen));
}

#[test]
fn lexer_knows_letters_numbers_and_spaces_beyond_ascii() {
    // U+3000 is white space, U+0661 a digit, U+00BD a number that is no digit.
    let toks = lex("caf\u{e9}\u{3000}x\u{661}\u{bd} _9").unwrap();
    let words: Vec<&str> = toks
        .iter()
        .map(|t| match &t.tk {
            Tk::Ident(s) => s.as_str(),
            _ => "?",
        })
        .collect();
    assert_eq!(words, vec!["caf\u{e9}", "x\u{661}\u{bd}", "_9"]);
}

#[test]
fn lexer_refuses_what_starts_no_token() {
    assert_eq!(parse_error("lock a: A\n  fn f() { a.b() }"), "line 2: unexpected character '.'");
    assert_eq!(parse_error("9lives"), "line 1: unexpected character '9'");
    assert_eq!(parse_error("/ "), "line 1: unexpected character '/'");
    assert_eq!(parse_error("\u{661}"), "line 1: unexpected character '\u{661}'");
}

#[test]
fn parser_messages() {
    assert_eq!(parse_error("fun f() { }"), "line 1: expected 'lock', 'fn', 'isr', or 'extern'");
    assert_eq!(parse_error("\nlock a A"), "line 2: expected Colon, found Ident(\"A\")");
    assert_eq!(parse_error("lock a"), "unexpected end of input, expected Colon");
    assert_eq!(parse_error("lock a:"), "unexpected end of input, expected an identifier");
    assert_eq!(parse_error("lock : A"), "line 1: expected an identifier");
    assert_eq!(parse_error("fn f()"), "unexpected end of input, expected LBrace");
    assert_eq!(parse_error("fn f) {"), "line 1: expected LParen, found RParen");
    assert_eq!(parse_error("fn f(a b) { }"), "line 1: expected RParen, found Ident(\"b\")");
    assert_eq!(parse_error("fn f(a,) { }"), "line 1: expected an identifier");
    assert_eq!(parse_error("fn f() {"), "unexpected end of input inside a block");
    assert_eq!(parse_error("isr\nlock"), "line 2: expected 'fn'");
    assert_eq!(parse_error("isr"), "line 0: expected 'fn'");
    assert_eq!(parse_error("extern x"), "line 1: expected 'fn'");
    assert_eq!(parse_error("extern fn x acquires :"), "line 1: expected an identifier");
    assert_eq!(
        parse_error("lock a: A\nfn f() {\n with ordered() { } }"),
        "line 3: ordered(...) needs at least one lock"
    );
    assert_eq!(parse_error("fn f() { : }"), "line 1: expected an identifier");
    assert_eq!(parse_error("fn f() { g, }"), "line 1: expected LParen, found Comma");
}

#[test]
fn nesting_is_bounded_at_512_blocks() {
    let nest = |n: usize| {
        format!("lock a: A\nfn t() {{ {}{} }}", "mask { ".repeat(n), "}".repeat(n))
    };
    assert!(parse(&nest(511)).is_ok());
    assert_eq!(
        parse_error(&nest(512)),
        "line 2: block nesting deeper than 512 is not supported"
    );
}

#[test]
fn statements_bear_the_line_of_their_first_token() {
    let ast = parse(
        "lock a: A\nfn f(cb) {\n with a {\n couple A {\n with ordered(a, a) { } } }\n cb(f)\n mask { } }",
    )
    .unwrap();
    let Item::Func(f) = &ast.items[1] else {
        panic!("expected a function")
    };
    assert_eq!(f.params, vec!["cb".to_string()]);
    assert_eq!(f.body.len(), 3);
    let Stmt::With { lock, line, body } = &f.body[0] else {
        panic!("expected a with")
    };
    assert_eq!((lock.as_str(), *line), ("a", 3));
    let Stmt::Couple { class, line, body } = &body[0] else {
        panic!("expected a couple")
    };
    assert_eq!((class.as_str(), *line), ("A", 4));
    let Stmt::Ordered { locks, line, body } = &body[0] else {
        panic!("expected an ordered")
    };
    assert_eq!((locks.len(), *line, body.len()), (2, 5, 0));
    let Stmt::Call { callee, args, line } = &f.body[1] else {
        panic!("expected a call")
    };
    assert_eq!((callee.as_str(), args.len(), *line), ("cb", 1, 6));
    assert!(matches!(&f.body[2], Stmt::Mask { body } if body.is_empty()));
}

#[test]
fn mask_is_a_keyword_only_before_a_block() {
    let ast = parse("fn mask() { }\nfn g() { mask() }").unwrap();
    let Item::Func(g) = &ast.items[1] else {
        panic!("expected a function")
    };
    assert!(matches!(&g.body[0], Stmt::Call { callee, .. } if callee == "mask"));
}

#[test]
fn declarations_are_checked() {
    assert_eq!(
        lower_errors(
            "lock a: A\nlock a: B\nfn f(p, p) { }\nfn f() { }\nextern fn e acquires A\n\
             extern fn e\nextern fn f acquires Nope"
        ),
        vec![
            "lock 'a' declared more than once",
            "function 'f' declares parameter 'p' more than once",
            "function 'f' declared more than once",
            "extern 'e' declared more than once",
            "'f' is declared as both a function and an extern",
            "extern 'f' acquires unknown class 'Nope'",
        ]
    );
}

#[test]
fn statements_are_checked() {
    let one = |src: &str| {
        let mut e = lower_errors(src);
        assert_eq!(e.len(), 1);
        e.remove(0)
    };
    assert_eq!(one("fn f() {\n with a { } }"), "test:2: undeclared lock 'a'");
    assert_eq!(
        one("lock a: A\nfn f() { with ordered(a, z) { } }"),
        "test:2: undeclared lock 'z'"
    );
    assert_eq!(
        one("lock a: A\nlock b: B\nfn f() { with ordered(a, b) { } }"),
        "test:3: ordered(...) requires all locks to share one class, found [\"A\", \"B\"]"
    );
    assert_eq!(one("fn f() { couple Z { } }"), "test:1: unknown lock class 'Z' in couple");
    assert_eq!(
        one("lock a: N\nfn f() { with a { couple N { } } }"),
        "test:2: couple of class 'N' while a lock of that class is already held outside a couple"
    );
    assert_eq!(one("fn f() { g() }"), "test:1: call to undefined function 'g'");
    assert_eq!(
        one("fn g(a, b) { }\nfn f() { g(f) }"),
        "test:2: 'g' expects 2 argument(s), got 1"
    );
    assert_eq!(
        one("fn g(a) { }\nfn f() { g(nope) }"),
        "test:2: undefined argument 'nope'"
    );
    assert_eq!(
        one("extern fn e\nfn f() { e(f) }"),
        "test:2: extern 'e' takes no arguments"
    );
}

#[test]
fn repeated_errors_are_reported_once() {
    // `f` is analyzed once on its own and again with A held.
    let src = "lock a: A\nfn f() { nope() }\nfn g() { with a { f() } }";
    assert_eq!(lower_errors(src), vec!["test:2: call to undefined function 'nope'"]);
}

#[test]
fn events_carry_the_site_and_the_held_classes_in_order() {
    let p = program("lock z: Z\nlock a: A\nlock m: M\nfn f() {\n with z {\n with a {\n with m { } } } }");
    assert_eq!(
        shown(&p),
        vec!["f test:5 [] Z", "f test:6 [Z] A", "f test:7 [A,Z] M"]
    );
    assert_eq!(p.class_instances.get("A"), Some(&1));
    assert_eq!(p.class_instances.get("Q"), None);
    assert!(p.incomplete.is_none());
    assert_eq!(p.name, "test");
}

#[test]
fn what_is_held_flows_into_the_callee() {
    let p = program("lock a: A\nlock b: B\nfn g() { with b { } }\nfn f() { with a { g() } }");
    assert!(shown(&p).contains(&"g test:3 [A] B".to_string()));
}

#[test]
fn handlers_hold_the_processor() {
    let p = program("lock s: S\nisr fn on() { with s { } }\nfn f() { with s { } }");
    let events = shown(&p);
    assert!(events.contains(&"on test:2 [<cpu>] S".to_string()));
    assert!(events.contains(&"f test:3 [S] <cpu>".to_string()));
    assert!(!events.contains(&"on test:2 [S] <cpu>".to_string()));
}

#[test]
fn preemption_is_inert_without_a_handler() {
    let p = program("lock s: S\nfn f() { mask { with s { } } }\nfn g() { with s { } }");
    assert_eq!(shown(&p), vec!["g test:3 [] S", "f test:2 [] S"]);
}

#[test]
fn externs_acquire_their_classes_nested() {
    let p = program(
        "lock a: A\nlock b: B\nlock c: C\nextern fn e acquires B, C\nfn f() { with a { e() } }",
    );
    let events = shown(&p);
    assert!(events.contains(&"e test:5 [A] B".to_string()));
    assert!(events.contains(&"e test:5 [A,B] C".to_string()));
}

#[test]
fn a_couple_descends_in_the_order_of_declaration() {
    let head = "lock a: N\nlock b: N\nlock c: N\n";
    let safe = |body: &str| !deadlocks(&format!("{head}fn f() {{ couple N {{ {body} }} }}"));
    assert!(safe("with a { with b { with c { } } }"));
    assert!(safe("with a { with c { } } with b { with c { } }"));
    assert!(!safe("with b { with a { } }"));
    assert!(!safe("with a { with a { } }"));
    // The descent goes on from the lock taken last.
    assert!(!safe("with c { couple N { with b { } } }"));
}

#[test]
fn ordered_locks_belong_to_the_descent() {
    let head = "lock c: N\nlock a: N\nlock b: N\n";
    let backward = format!(
        "{head}fn f() {{ couple N {{ with ordered(a, b) {{ with c {{ }} }} }} }}\n\
         fn g() {{ couple N {{ with c {{ with a {{ }} }} }} }}"
    );
    assert!(deadlocks(&backward));
    let forward = format!("{head}fn f() {{ couple N {{ with ordered(c, a) {{ with b {{ }} }} }} }}");
    assert!(!deadlocks(&forward));
}

#[test]
fn an_ordered_statement_without_locks_is_passed_over() {
    let ast = Ast {
        items: vec![Item::Func(whorl::ast::Func {
            name: "f".to_string(),
            params: vec![],
            body: vec![Stmt::Ordered {
                locks: vec![],
                line: 1,
                body: vec![Stmt::Call {
                    callee: "nope".to_string(),
                    args: vec![],
                    line: 1,
                }],
            }],
            is_isr: false,
        })],
    };
    let p = lower(&ast, "test").expect("lower");
    assert!(p.events.is_empty());
}

#[test]
fn nesting_past_512_in_a_tree_is_incomplete() {
    let mut body: Vec<Stmt> = vec![];
    for _ in 0..514 {
        body = vec![Stmt::Mask { body }];
    }
    let ast = Ast {
        items: vec![Item::Func(whorl::ast::Func {
            name: "f".to_string(),
            params: vec![],
            body,
            is_isr: false,
        })],
    };
    let p = lower(&ast, "test").expect("lower");
    assert_eq!(
        p.incomplete.as_deref(),
        Some("lock nesting deeper than 512 was not fully analyzed")
    );
}

#[test]
fn callbacks_flow_through_every_call() {
    // Both g and h flow to `cb`, so both run under A.
    let p = program(
        "lock a: A\nlock b: B\nlock c: C\n\
         fn run(cb) { with a { cb() } }\n\
         fn g() { with b { } }\nfn h() { with c { } }\n\
         fn x() { run(g) }\nfn y() { run(h) }",
    );
    let events = shown(&p);
    assert!(events.contains(&"g test:5 [A] B".to_string()));
    assert!(events.contains(&"h test:6 [A] C".to_string()));
}

#[test]
fn recursion_ends() {
    let p = program("lock a: A\nfn f() { with a { f() } }");
    assert!(p.incomplete.is_none());
    assert!(matches!(analyze(&p).outcome, Outcome::Deadlock { .. }));
}

fn write_block(out: &mut Vec<String>, body: &[Stmt]) {
    out.push("{".to_string());
    for s in body {
        write_stmt(out, s);
    }
    out.push("}".to_string());
}

fn write_list(out: &mut Vec<String>, names: &[String]) {
    out.push("(".to_string());
    for (i, n) in names.iter().enumerate() {
        if i > 0 {
            out.push(",".to_string());
        }
        out.push(n.clone());
    }
    out.push(")".to_string());
}

fn write_stmt(out: &mut Vec<String>, s: &Stmt) {
    match s {
        Stmt::With { lock, body, .. } => {
            out.push("with".to_string());
            out.push(lock.clone());
            write_block(out, body);
        }
        Stmt::Ordered { locks, body, .. } => {
            out.push("with".to_string());
            out.push("ordered".to_string());
            write_list(out, locks);
            write_block(out, body);
        }
        Stmt::Couple { class, body, .. } => {
            out.push("couple".to_string());
            out.push(class.clone());
            write_block(out, body);
        }
        Stmt::Mask { body } => {
            out.push("mask".to_string());
            write_block(out, body);
        }
        Stmt::Call { callee, args, .. } => {
            out.push(callee.clone());
            write_list(out, args);
        }
    }
}

fn write_items(items: &[Item]) -> Vec<String> {
    let mut out = Vec::new();
    for x in items {
        match x {
            Item::Lock { name, class } => {
                for w in ["lock", name, ":", class] {
                    out.push(w.to_string());
                }
            }
            Item::Func(f) => {
                if f.is_isr {
                    out.push("isr".to_string());
                }
                out.push("fn".to_string());
                out.push(f.name.clone());
                write_list(&mut out, &f.params);
                write_block(&mut out, &f.body);
            }
            Item::Extern { name, acquires } => {
                for w in ["extern", "fn", name] {
                    out.push(w.to_string());
                }
                for (i, c) in acquires.iter().enumerate() {
                    out.push(if i == 0 { "acquires" } else { "," }.to_string());
                    out.push(c.clone());
                }
            }
        }
    }
    out
}

#[test]
fn a_written_program_is_read_back() {
    let src = "lock a: A\nlock b: A\nextern fn v acquires A, A\nextern fn w\n\
               isr fn on() { mask { with a { } } }\n\
               fn couple(mask, with) { couple A { with ordered(a, b) { with(mask, v) } } mask() }";
    let ast = parse(src).unwrap();
    // One token a line: the line of a statement is the number of its first token.
    let tokens = write_items(&ast.items);
    assert_eq!(write_items(&ast.clone().items), tokens);
    let again = parse(&tokens.join("\n")).unwrap();
    assert_eq!(write_items(&again.items), tokens);
    let Item::Func(f) = &again.items[5] else {
        panic!("expected a function")
    };
    let Stmt::Couple { line, .. } = &f.body[0] else {
        panic!("expected a couple")
    };
    assert_eq!(tokens[*line - 1], "couple");
    let Stmt::Call { line, .. } = &f.body[1] else {
        panic!("expected a call")
    };
    assert_eq!(tokens[*line - 1], "mask");
    assert_eq!(tokens[*line], "(");
    // Words need a space between them, punctuation does not.
    let tight = "lock a:A lock b:A extern fn v acquires A,A extern fn w \
                 isr fn on(){mask{with a{}}}\
                 fn couple(mask,with){couple A{with ordered(a,b){with(mask,v)}}mask()}";
    assert_eq!(write_items(&parse(tight).unwrap().items), tokens);
}

#[test]
fn adding_a_declaration_only_adds_edges() {
    let base = "lock a: A\nlock b: B\nfn run(cb) { with a { cb() } }\nfn g() { with b { } }\n\
                fn x() { run(g) }\nfn y() { with b { with a { } } }";
    assert!(deadlocks(base));
    for more in [
        "lock c: C",
        "fn z() { run(y) }",
        "isr fn on() { with a { } }",
        "extern fn e acquires B, A",
    ] {
        assert!(deadlocks(&format!("{base}\n{more}")));
    }
}
