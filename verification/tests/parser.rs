use whorl::parser::parse;

#[test]
fn non_ascii_identifier_does_not_panic() {
    let _ = parse("lock café : Resource\nfn f() { with café { } }");
}

#[test]
fn deep_nesting_errors_cleanly() {
    let src = format!(
        "lock a: A\nfn t() {{ {}{} }}",
        "with a { ".repeat(2000),
        "}".repeat(2000)
    );
    assert!(parse(&src).is_err());
}

#[test]
fn parses_params_and_args() {
    let ast = parse("fn helper(body) { body() }\nfn run() { helper(run) }").unwrap();
    assert_eq!(ast.items.len(), 2);
}

#[test]
fn couple_and_with_are_callable_names() {
    // `couple`/`with` followed by `(` parse as calls, not keywords.
    parse("fn couple() { }\nfn g() { couple() }").expect("couple() should parse as a call");
    parse("fn with() { }\nfn g() { with() }").expect("with() should parse as a call");
}
