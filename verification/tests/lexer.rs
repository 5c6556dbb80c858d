use chakobsa::lexer::{is_reserved_word, lex, LexError, Span, TokenKind};

fn kinds(source: &str) -> Vec<TokenKind> {
    lex(source).unwrap().into_iter().map(|t| t.kind).collect()
}

#[test]
fn empty_input_is_just_eof() {
    assert_eq!(kinds(""), vec![TokenKind::Eof]);
}

#[test]
fn whitespace_and_comments_are_skipped() {
    assert_eq!(
        kinds("  \n\t// a comment\n  42 // trailing\n"),
        vec![TokenKind::Int(42), TokenKind::Eof]
    );
}

#[test]
fn keywords_are_recognized_not_as_identifiers() {
    assert_eq!(
        kinds("let fn if else while return and or not i64 bool true false"),
        vec![
            TokenKind::Let,
            TokenKind::Fn,
            TokenKind::If,
            TokenKind::Else,
            TokenKind::While,
            TokenKind::Return,
            TokenKind::And,
            TokenKind::Or,
            TokenKind::Not,
            TokenKind::I64,
            TokenKind::Bool,
            TokenKind::True,
            TokenKind::False,
            TokenKind::Eof,
        ]
    );
}

#[test]
fn identifiers_can_contain_digits_and_underscores_but_not_start_with_a_digit() {
    assert_eq!(
        kinds("x x1 _foo foo_bar_2"),
        vec![
            TokenKind::Ident("x".into()),
            TokenKind::Ident("x1".into()),
            TokenKind::Ident("_foo".into()),
            TokenKind::Ident("foo_bar_2".into()),
            TokenKind::Eof,
        ]
    );
}

#[test]
fn a_keyword_prefixed_identifier_is_still_an_identifier() {
    assert_eq!(
        kinds("iffy letter"),
        vec![
            TokenKind::Ident("iffy".into()),
            TokenKind::Ident("letter".into()),
            TokenKind::Eof,
        ]
    );
}

#[test]
fn two_character_operators_are_greedily_matched_over_one_character_ones() {
    assert_eq!(
        kinds("== != <= >= -> = < > + - * / %"),
        vec![
            TokenKind::EqEq,
            TokenKind::NotEq,
            TokenKind::Le,
            TokenKind::Ge,
            TokenKind::Arrow,
            TokenKind::Eq,
            TokenKind::Lt,
            TokenKind::Gt,
            TokenKind::Plus,
            TokenKind::Minus,
            TokenKind::Star,
            TokenKind::Slash,
            TokenKind::Percent,
            TokenKind::Eof,
        ]
    );
}

#[test]
fn punctuation_round_trips() {
    assert_eq!(
        kinds("( ) { } , ; :"),
        vec![
            TokenKind::LParen,
            TokenKind::RParen,
            TokenKind::LBrace,
            TokenKind::RBrace,
            TokenKind::Comma,
            TokenKind::Semicolon,
            TokenKind::Colon,
            TokenKind::Eof,
        ]
    );
}

#[test]
fn a_full_function_lexes_to_the_expected_token_sequence() {
    let src = "fn add(a: i64, b: i64) -> i64 { return a + b; }";
    assert_eq!(
        kinds(src),
        vec![
            TokenKind::Fn,
            TokenKind::Ident("add".into()),
            TokenKind::LParen,
            TokenKind::Ident("a".into()),
            TokenKind::Colon,
            TokenKind::I64,
            TokenKind::Comma,
            TokenKind::Ident("b".into()),
            TokenKind::Colon,
            TokenKind::I64,
            TokenKind::RParen,
            TokenKind::Arrow,
            TokenKind::I64,
            TokenKind::LBrace,
            TokenKind::Return,
            TokenKind::Ident("a".into()),
            TokenKind::Plus,
            TokenKind::Ident("b".into()),
            TokenKind::Semicolon,
            TokenKind::RBrace,
            TokenKind::Eof,
        ]
    );
}

#[test]
fn an_unexpected_character_is_a_typed_error_not_a_panic() {
    assert_eq!(lex("@"), Err(LexError::UnexpectedChar { ch: '@', pos: 0 }));
}

#[test]
fn a_lone_bang_is_a_typed_error_but_bang_equals_is_fine() {
    assert_eq!(lex("!"), Err(LexError::LoneBang { pos: 0 }));
    assert!(lex("a != b").is_ok());
}

#[test]
fn an_integer_literal_that_overflows_i64_is_a_typed_error() {
    assert_eq!(
        lex("99999999999999999999"),
        Err(LexError::IntegerOverflow { pos: 0 })
    );
}

#[test]
fn integer_literal_at_exactly_i64_max_is_accepted() {
    assert_eq!(
        kinds(&i64::MAX.to_string()),
        vec![TokenKind::Int(i64::MAX), TokenKind::Eof]
    );
}

#[test]
fn spans_point_at_the_correct_byte_offsets() {
    let tokens = lex("ab + 12").unwrap();
    assert_eq!(tokens[0].span, Span::new(0, 2));
    assert_eq!(tokens[1].span, Span::new(3, 4));
    assert_eq!(tokens[2].span, Span::new(5, 7));
}

#[test]
fn an_error_position_is_the_byte_offset_of_the_offending_character() {
    assert_eq!(lex("a  #"), Err(LexError::UnexpectedChar { ch: '#', pos: 3 }));
    assert_eq!(lex("x = !y"), Err(LexError::LoneBang { pos: 4 }));
    assert_eq!(
        lex("a 12345678901234567890"),
        Err(LexError::IntegerOverflow { pos: 2 })
    );
}

#[test]
fn a_comment_runs_to_the_end_of_its_line_only() {
    assert_eq!(
        kinds("1 // 2 3\n4"),
        vec![TokenKind::Int(1), TokenKind::Int(4), TokenKind::Eof]
    );
}

#[test]
fn the_eof_token_spans_the_end_of_the_input() {
    let tokens = lex("ab ").unwrap();
    assert_eq!(tokens.last().unwrap().kind, TokenKind::Eof);
    assert_eq!(tokens.last().unwrap().span, Span::new(3, 3));
}

#[test]
fn reserved_words_are_exactly_the_keywords() {
    for w in [
        "let", "fn", "if", "else", "while", "return", "and", "or", "not", "i64", "bool", "true",
        "false",
    ] {
        assert!(is_reserved_word(w), "{w}");
    }
    for w in ["iffy", "x", "main", "Let", ""] {
        assert!(!is_reserved_word(w), "{w}");
    }
}

fn render(kind: &TokenKind) -> String {
    match kind {
        TokenKind::Ident(s) => s.clone(),
        TokenKind::Int(n) => n.to_string(),
        TokenKind::Fn => "fn".into(),
        TokenKind::While => "while".into(),
        TokenKind::Arrow => "->".into(),
        TokenKind::Le => "<=".into(),
        TokenKind::NotEq => "!=".into(),
        TokenKind::Eq => "=".into(),
        TokenKind::Not => "not".into(),
        TokenKind::Semicolon => ";".into(),
        TokenKind::Minus => "-".into(),
        other => panic!("no rendering for {other:?}"),
    }
}

#[test]
fn a_rendered_token_sequence_relexes_to_itself() {
    let kinds_in = vec![
        TokenKind::Fn,
        TokenKind::Ident("abc_1".into()),
        TokenKind::Int(999_999),
        TokenKind::Arrow,
        TokenKind::Le,
        TokenKind::NotEq,
        TokenKind::Eq,
        TokenKind::Not,
        TokenKind::Minus,
        TokenKind::While,
        TokenKind::Semicolon,
    ];
    let source: Vec<String> = kinds_in.iter().map(render).collect();
    let relexed: Vec<TokenKind> = kinds(&source.join(" "))
        .into_iter()
        .filter(|k| *k != TokenKind::Eof)
        .collect();
    assert_eq!(relexed, kinds_in);
}

#[test]
fn describe_names_a_token_as_messages_do() {
    assert_eq!(TokenKind::Ident("x".into()).describe(), "identifier 'x'");
    assert_eq!(TokenKind::Int(-7).describe(), "integer -7");
    assert_eq!(TokenKind::Semicolon.describe(), "';'");
    assert_eq!(TokenKind::Eof.describe(), "end of input");
}

#[test]
fn lexed_tokens_come_in_source_order_with_end_of_input_once_at_the_end() {
    let ts = lex("fn f(a: i64) -> i64 { return a + 12; } // done").unwrap();
    assert_eq!(ts.last().unwrap().kind, TokenKind::Eof);
    for i in 0..ts.len() - 1 {
        assert_ne!(ts[i].kind, TokenKind::Eof);
        assert!(ts[i].span.start <= ts[i].span.end);
        assert!(ts[i].span.end <= ts[i + 1].span.start);
    }
}
