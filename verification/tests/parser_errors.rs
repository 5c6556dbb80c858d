use chakobsa::lexer::{lex, LexError, Span, TokenKind};
use chakobsa::parser::{parse, ParseError};
use chakobsa::types::Type;

#[test]
fn using_an_undefined_variable_is_a_typed_error() {
    let result = parse("fn f() -> i64 { return y; }");
    assert!(matches!(result, Err(ParseError::UndefinedVariable { name, .. }) if name == "y"));
}

#[test]
fn calling_an_undefined_function_is_a_typed_error() {
    let result = parse("fn f() -> i64 { return g(1); }");
    assert!(matches!(result, Err(ParseError::UndefinedFunction { name, .. }) if name == "g"));
}

#[test]
fn errors_wrong_argument_count_is_a_typed_error() {
    let result = parse(
        r#"
        fn g(a: i64, b: i64) -> i64 { return a + b; }
        fn f() -> i64 { return g(1); }
        "#,
    );
    assert!(matches!(
        result,
        Err(ParseError::ArgCountMismatch { func, expected: 2, given: 1, .. }) if func == "g"
    ));
}

#[test]
fn wrong_argument_type_is_a_typed_error() {
    let result = parse(
        r#"
        fn g(a: i64) -> i64 { return a; }
        fn f() -> i64 { return g(true); }
        "#,
    );
    assert!(matches!(result, Err(ParseError::TypeMismatch { .. })));
}

#[test]
fn adding_a_bool_to_an_i64_is_a_typed_error() {
    let result = parse("fn f() -> i64 { return 1 + true; }");
    assert!(matches!(
        result,
        Err(ParseError::TypeMismatch { expected: Type::I64, actual: Type::Bool, .. })
    ));
}

#[test]
fn a_non_bool_if_condition_is_a_typed_error() {
    let result = parse("fn f() -> i64 { if 1 { return 1; } return 0; }");
    assert!(matches!(
        result,
        Err(ParseError::TypeMismatch { expected: Type::Bool, actual: Type::I64, .. })
    ));
}

#[test]
fn a_non_bool_while_condition_is_a_typed_error() {
    let result = parse("fn f() -> i64 { while 1 { return 0; } return 0; }");
    assert!(matches!(
        result,
        Err(ParseError::TypeMismatch { expected: Type::Bool, actual: Type::I64, .. })
    ));
}

#[test]
fn returning_the_wrong_type_is_a_typed_error() {
    let result = parse("fn f() -> i64 { return true; }");
    assert!(matches!(
        result,
        Err(ParseError::TypeMismatch { expected: Type::I64, actual: Type::Bool, .. })
    ));
}

#[test]
fn assigning_to_an_undefined_variable_is_a_typed_error() {
    let result = parse("fn f() -> i64 { y = 1; return 0; }");
    assert!(matches!(result, Err(ParseError::UndefinedVariable { name, .. }) if name == "y"));
}

#[test]
fn assigning_the_wrong_type_to_an_existing_variable_is_a_typed_error() {
    let result = parse("fn f() -> i64 { let x = 1; x = true; return x; }");
    assert!(matches!(result, Err(ParseError::TypeMismatch { .. })));
}

#[test]
fn a_duplicate_function_name_is_a_typed_error() {
    let result = parse("fn f() -> i64 { return 1; } fn f() -> i64 { return 2; }");
    assert!(matches!(result, Err(ParseError::DuplicateFunction { name }) if name == "f"));
}

#[test]
fn a_duplicate_parameter_name_is_a_typed_error() {
    let result = parse("fn f(a: i64, a: i64) -> i64 { return a; }");
    assert!(matches!(result, Err(ParseError::DuplicateParameter { name, .. }) if name == "a"));
}

#[test]
fn code_after_a_return_in_the_same_block_is_rejected_as_unreachable() {
    let result = parse("fn f() -> i64 { return 1; let x = 2; return x; }");
    assert!(matches!(result, Err(ParseError::UnreachableCode { .. })));
}

#[test]
fn an_unexpected_token_is_a_typed_error_not_a_panic() {
    let result = parse("fn f() -> i64 { return ; }");
    assert!(matches!(result, Err(ParseError::UnexpectedToken { .. })));
}

#[test]
fn a_lexical_error_propagates_as_a_typed_parse_error() {
    let result = parse("fn f() -> i64 { return @; }");
    assert!(matches!(result, Err(ParseError::Lex(_))));
}

#[test]
fn an_unclosed_block_is_a_typed_error_not_a_panic() {
    let result = parse("fn f() -> i64 { return 1;");
    assert!(result.is_err());
}

#[test]
fn a_program_with_both_branches_of_an_if_returning_and_nothing_after_it_is_accepted() {
    let result = parse(
        r#"
        fn f(x: i64) -> i64 {
            if x < 0 {
                return -1;
            } else {
                return 1;
            }
        }
        "#,
    );
    assert!(result.is_ok(), "{result:?}");
}

#[test]
fn a_lexical_error_carries_the_lexers_exact_error() {
    assert_eq!(
        parse("fn f() -> i64 { return @; }").unwrap_err(),
        ParseError::Lex(LexError::UnexpectedChar { ch: '@', pos: 23 })
    );
}

#[test]
fn an_unexpected_token_names_what_was_expected_and_what_was_found() {
    match parse("fn f() -> i64 { return ; }") {
        Err(ParseError::UnexpectedToken { found, span, .. }) => {
            assert_eq!(found, TokenKind::Semicolon);
            assert_eq!(span, Span::new(23, 24));
        }
        other => panic!("unexpected result {other:?}"),
    }
}

#[test]
fn a_function_header_must_name_a_return_type() {
    assert_eq!(
        parse("fn f() { let x = 1; }").unwrap_err(),
        ParseError::UnexpectedToken { expected: "'->'".into(), found: TokenKind::LBrace, span: Span::new(7, 8) }
    );
}

#[test]
fn a_source_not_starting_with_fn_is_rejected_at_its_first_token() {
    assert_eq!(
        parse("let x = 1;"),
        Err(ParseError::UnexpectedToken {
            expected: "'fn'".into(),
            found: TokenKind::Let,
            span: Span { start: 0, end: 3 },
        })
    );
}

#[test]
fn a_missing_operand_is_reported_where_an_expression_was_expected() {
    assert_eq!(
        parse("fn f() -> i64 { let x = * 2; return x; }"),
        Err(ParseError::UnexpectedToken {
            expected: "an expression".into(),
            found: TokenKind::Star,
            span: Span { start: 24, end: 25 },
        })
    );
    assert_eq!(
        parse("fn f(a: bool) -> bool { return a or ; }"),
        Err(ParseError::UnexpectedToken {
            expected: "an expression".into(),
            found: TokenKind::Semicolon,
            span: Span { start: 36, end: 37 },
        })
    );
}

#[test]
fn every_error_points_at_a_token_of_the_source() {
    let sources = [
        "fn f() -> i64 { return y; }",
        "fn f() -> i64 { return g(1); }",
        "fn g(a: i64) -> i64 { return a; } fn f() -> i64 { return g(1, 2); }",
        "fn f() -> i64 { return 1 + true; }",
        "fn f() -> i64 { return 1; let x = 2; return x; }",
        "fn f() -> i64 { return ; }",
        "fn f() -> i64 { let x = 1; }",
        "fn f() -> i64 { while 1 { return 0; } return 0; }",
        "let x = 1;",
    ];
    for src in sources {
        let tokens = lex(src).unwrap();
        let err = parse(src).unwrap_err();
        let (span, found) = match &err {
            ParseError::UnexpectedToken { found, span, .. } => (*span, Some(found.clone())),
            ParseError::UndefinedVariable { span, .. }
            | ParseError::UndefinedFunction { span, .. }
            | ParseError::ArgCountMismatch { span, .. }
            | ParseError::TypeMismatch { span, .. }
            | ParseError::UnreachableCode { span } => (*span, None),
            other => panic!("{src}: unexpected error {other:?}"),
        };
        assert!(
            tokens.iter().any(|t| t.span == span && found.as_ref().map_or(true, |k| *k == t.kind)),
            "{src}: {err:?}"
        );
    }
}
