use lexparse::lex::{LexError, LexResult, Lexer, RuleMatch};
use lexparse::parse::{ParseError, ParseResult, TokenQueue};

#[derive(Debug, PartialEq, Clone)]
enum Token {
    Add,
    Sub,
    Mul,
    Div,
    Num(f64),
}

impl Token {
    fn get_num(&self) -> Option<f64> {
        match self {
            &Self::Num(val) => Some(val),
            _ => None,
        }
    }
}

type BoxedExpr = Box<Expr>;

#[derive(Debug, PartialEq)]
enum Op {
    Op(BoxedExpr, BoxedExpr),
    Inv(BoxedExpr, BoxedExpr),
}

#[derive(Debug, PartialEq)]
struct Mul(Op);

#[derive(Debug, PartialEq)]
struct Add(Op);

#[derive(Debug, PartialEq)]
enum Expr {
    Add(Add),
    Mul(Mul),
    Num(f64),
}

impl Expr {
    fn parse(tq: &TokenQueue<Token>) -> ParseResult<Self> {
        let mut tq = tq.clone();

        let lhs = tq.consume()?.get_num().ok_or(ParseError::Syntax(
            "Couldn't parse number where one was required!".to_string(),
        ))?;

        if tq.is_consumed() {
            return Ok((Expr::Num(lhs), tq.get_idx()));
        }

        let op = tq.consume()?.clone();
        let rhs: Expr = tq.parse(Expr::parse)?;

        let lhs = Box::new(Expr::Num(lhs));
        let rhs = Box::new(rhs);

        match op {
            Token::Add => Ok((Expr::Add(Add(Op::Op(lhs, rhs))), tq.get_idx())),
            Token::Sub => Ok((Expr::Add(Add(Op::Inv(lhs, rhs))), tq.get_idx())),
            Token::Mul => Ok((Expr::Mul(Mul(Op::Op(lhs, rhs))), tq.get_idx())),
            Token::Div => Ok((Expr::Mul(Mul(Op::Inv(lhs, rhs))), tq.get_idx())),
            _ => Err(ParseError::Syntax(
                "Couldn't parse operator where one was required!".to_string(),
            )),
        }
    }
}

type Handler = fn(&RuleMatch) -> LexResult<Token>;

fn setup_lexer() -> Lexer<Handler> {
    let mut lexer: Lexer<Handler> = Lexer::new();

    lexer.add_rule(r"[\s\t\n]+", |_| LexResult::Ignore);

    lexer.add_rule(r"\+", |_| LexResult::Token(Token::Add));
    lexer.add_rule(r"\-", |_| LexResult::Token(Token::Sub));
    lexer.add_rule(r"\*", |_| LexResult::Token(Token::Mul));
    lexer.add_rule(r"/", |_| LexResult::Token(Token::Div));

    lexer.add_rule(r"\-?[0-9]+(?:\.[0-9]+)?", |re_match| {
        match re_match.as_str().parse::<f64>() {
            Ok(val) => LexResult::Token(Token::Num(val)),
            Err(err) => LexResult::Error(err.to_string()),
        }
    });

    lexer
}

fn parse_expr_from_str(s: &str) -> Expr {
    let lexer = setup_lexer();
    let tokens = lexer.lex(s).unwrap();
    let mut tq = TokenQueue::from(tokens);
    tq.parse(Expr::parse).unwrap()
}

#[test]
fn lexer_test() {
    let l = setup_lexer();

    let toks = l.lex("5 + 6").unwrap();
    assert!(toks == vec![Token::Num(5.0), Token::Add, Token::Num(6.0)]);

    assert!(l.lex("5 & 6").is_err());
}

#[test]
fn unmatched_input_names_the_offset() {
    let l = setup_lexer();
    assert!(matches!(l.lex("5 & 6"), Err(LexError::UnmatchedInput(2))));
    assert!(matches!(l.lex("5 + 6 $$"), Err(LexError::UnmatchedInput(6))));
}

#[test]
fn calc_parse_test() {
    let expr = parse_expr_from_str("5 + 6 - 2");
    assert!(
        expr == Expr::Add(Add(Op::Op(
            Expr::Num(5.0).into(),
            Expr::Add(Add(Op::Inv(Expr::Num(6.0).into(), Expr::Num(2.0).into()))).into()
        )))
    );

    let expr = parse_expr_from_str("5 * 6 + 2");
    assert!(
        expr == Expr::Mul(Mul(Op::Op(
            Expr::Num(5.0).into(),
            Expr::Add(Add(Op::Op(Expr::Num(6.0).into(), Expr::Num(2.0).into()))).into()
        )))
    );

    let expr = parse_expr_from_str("5 + 6 * 2");
    assert!(
        expr == Expr::Add(Add(Op::Op(
            Expr::Num(5.0).into(),
            Expr::Mul(Mul(Op::Op(Expr::Num(6.0).into(), Expr::Num(2.0).into()))).into()
        )))
    );
}

#[test]
fn right_nested_parse_over_tokens() {
    let mut tq = TokenQueue::new(vec![
        Token::Num(5.0),
        Token::Add,
        Token::Num(6.0),
        Token::Sub,
        Token::Num(2.0),
    ]);
    let expr = tq.parse(Expr::parse).unwrap();
    assert!(
        expr == Expr::Add(Add(Op::Op(
            Expr::Num(5.0).into(),
            Expr::Add(Add(Op::Inv(Expr::Num(6.0).into(), Expr::Num(2.0).into()))).into()
        )))
    );
    assert!(tq.is_consumed());
    assert_eq!(tq.get_idx(), 5);
}

#[test]
fn failed_parse_leaves_cursor() {
    // The sub-parser consumes `5 +` on its own copy, then finds `*` where a
    // number must stand.
    let mut tq = TokenQueue::new(vec![Token::Num(5.0), Token::Add, Token::Mul, Token::Num(1.0)]);
    let r = tq.parse(Expr::parse);
    assert!(matches!(r, Err(ParseError::Syntax(_))));
    assert_eq!(tq.get_idx(), 0);
}

#[test]
fn handler_failure_stops_lexing() {
    let mut lexer: Lexer<Handler> = Lexer::new();
    lexer.add_rule(r"[0-9]+", |_| LexResult::Token(Token::Num(0.0)));
    lexer.add_rule(r"x", |m| LexResult::Error(format!("bad at {}", m.start())));
    assert_eq!(
        lexer.lex("12x3").unwrap_err(),
        LexError::HandlerFailure("bad at 2".to_string())
    );
}
