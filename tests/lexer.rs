use lexparse::lex::{LexError, LexResult, Lexer, RuleMatch};

#[derive(PartialEq, Debug)]
enum Token {
    IntLiteral(i32),
    DblLiteral(f64),
    Word(String),
    Kwd,
}

type Handler = fn(&RuleMatch) -> LexResult<Token>;

fn setup_lexer() -> Lexer<Handler> {
    let mut lexer: Lexer<Handler> = Lexer::new();

    lexer.add_rule(r"[\s\t\n]", |_| LexResult::Ignore);
    lexer.add_rule(r"\-?[0-9]+", |int_match| match int_match.as_str().parse::<i32>() {
        Ok(val) => LexResult::Token(Token::IntLiteral(val)),
        Err(err) => LexResult::Error(err.to_string()),
    });
    lexer.add_rule(r"\-?[0-9]+(\.[0-9]+)", |dbl_match| {
        match dbl_match.as_str().parse::<f64>() {
            Ok(val) => LexResult::Token(Token::DblLiteral(val)),
            Err(err) => LexResult::Error(err.to_string()),
        }
    });

    lexer
}

#[test]
fn test_lexer() {
    let lexer = setup_lexer();
    assert!(
        lexer.lex("9 0.9 1.0").unwrap()
            == vec![Token::IntLiteral(9), Token::DblLiteral(0.9), Token::DblLiteral(1.0)]
    );
}

#[test]
fn empty_input_gives_no_tokens() {
    let lexer = setup_lexer();
    assert_eq!(lexer.lex("").unwrap(), vec![]);
}

#[test]
fn handler_error_surfaces() {
    let lexer = setup_lexer();
    // Too large for an i32: the integer handler rejects it.
    assert!(matches!(lexer.lex("99999999999"), Err(LexError::HandlerFailure(_))));
}

#[test]
fn malformed_pattern_is_refused() {
    let mut lexer: Lexer<Handler> = Lexer::new();
    assert!(!lexer.try_add_rule(r"foo(bar", |_| LexResult::Ignore));
    assert!(lexer.try_add_rule(r"[a-z]+", |m| LexResult::Token(Token::Word(m.as_str().to_string()))));
    assert_eq!(lexer.lex("abc").unwrap(), vec![Token::Word("abc".to_string())]);
}

#[test]
fn equal_length_goes_to_earlier_rule() {
    let mut lexer: Lexer<Handler> = Lexer::new();
    lexer.add_rule(r"if", |_| LexResult::Token(Token::Kwd));
    lexer.add_rule(r"[a-z]+", |m| LexResult::Token(Token::Word(m.as_str().to_string())));
    lexer.add_rule(r" ", |_| LexResult::Ignore);
    assert_eq!(
        lexer.lex("if iffy").unwrap(),
        vec![Token::Kwd, Token::Word("iffy".to_string())]
    );
}

#[test]
fn longer_match_wins_regardless_of_order() {
    let mut lexer: Lexer<Handler> = Lexer::new();
    lexer.add_rule(r"[a-z]", |m| LexResult::Token(Token::Word(m.as_str().to_string())));
    lexer.add_rule(r"[a-z]+", |m| LexResult::Token(Token::Word(m.as_str().to_string())));
    assert_eq!(lexer.lex("ab").unwrap(), vec![Token::Word("ab".to_string())]);
}

#[test]
fn ignored_match_keeps_its_bytes() {
    let mut lexer: Lexer<Handler> = Lexer::new();
    lexer.add_rule(r"#[a-z]*", |_| LexResult::Ignore);
    lexer.add_rule(r"[a-z]+", |m| LexResult::Token(Token::Word(m.as_str().to_string())));
    lexer.add_rule(r" ", |_| LexResult::Ignore);
    assert_eq!(lexer.lex("ab #cd").unwrap(), vec![Token::Word("ab".to_string())]);
}

#[test]
fn rule_match_reports_offsets_and_text() {
    let mut lexer: Lexer<Handler> = Lexer::new();
    lexer.add_rule(r"[a-z]+", |m| {
        LexResult::Token(Token::Word(format!("{}:{}:{}", m.start(), m.end(), m.as_str())))
    });
    lexer.add_rule(r" ", |_| LexResult::Ignore);
    assert_eq!(
        lexer.lex("ab cde").unwrap(),
        vec![Token::Word("0:2:ab".to_string()), Token::Word("3:6:cde".to_string())]
    );
}

#[test]
fn lex_matches_reports_spans_in_reading_order() {
    let mut lexer: Lexer<Handler> = Lexer::new();
    // The word rule is offered first, so its matches are taken before the
    // numbers that lie to their left.
    lexer.add_rule(r"[a-z]+", |m| LexResult::Token(Token::Word(m.as_str().to_string())));
    lexer.add_rule(r"[0-9]+", |m| LexResult::Token(Token::IntLiteral(m.as_str().parse().unwrap())));
    lexer.add_rule(r" +", |_| LexResult::Ignore);
    let ms = lexer.lex_matches("12 ab  345 c").unwrap();
    let spans: Vec<(usize, usize)> = ms.iter().map(|m| (m.start, m.len)).collect();
    assert_eq!(spans, vec![(0, 2), (3, 2), (7, 3), (11, 1)]);
    let tokens: Vec<Token> = ms.into_iter().map(|m| m.token).collect();
    assert_eq!(
        tokens,
        vec![
            Token::IntLiteral(12),
            Token::Word("ab".to_string()),
            Token::IntLiteral(345),
            Token::Word("c".to_string())
        ]
    );
}

#[test]
fn rejected_candidate_displaces_nothing() {
    let mut l: Lexer<fn(&RuleMatch) -> LexResult<char>> = Lexer::new();
    l.add_rule("bcd", |_| LexResult::Token('X'));
    l.add_rule("a", |_| LexResult::Token('Y'));
    l.add_rule("ab", |_| LexResult::Token('Z'));
    assert_eq!(l.lex("abcd"), Ok(vec!['Y', 'X']));
}

#[test]
fn no_rules_match_nothing() {
    let l: Lexer<fn(&RuleMatch) -> LexResult<char>> = Lexer::new();
    assert_eq!(l.lex(""), Ok(vec![]));
    assert_eq!(l.lex("x"), Err(LexError::UnmatchedInput(0)));
}

#[test]
fn first_handler_error_in_offer_order_wins() {
    let mut l: Lexer<fn(&RuleMatch) -> LexResult<char>> = Lexer::new();
    l.add_rule("b", |_| LexResult::Error("second rule".to_string()));
    l.add_rule("a", |_| LexResult::Error("first match".to_string()));
    assert_eq!(l.lex("ab"), Err(LexError::HandlerFailure("second rule".to_string())));
}
