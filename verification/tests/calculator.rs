use rustlab::parser::Parser;
use rustlab::scanner::Scanner;
use rustlab::token::{Expr, Terminal, Token};

/// Puts the value of each number literal into its token.
fn numeric(tokens: &[Token<Vec<u8>>]) -> Vec<Token<f64>> {
    tokens
        .iter()
        .map(|t| match t {
            Token::Num(b) => Token::Num(String::from_utf8(b.clone()).unwrap().parse::<f64>().unwrap()),
            Token::RightPar => Token::RightPar,
            Token::LeftPar => Token::LeftPar,
            Token::Plus => Token::Plus,
            Token::Minus => Token::Minus,
            Token::Mult => Token::Mult,
            Token::Div => Token::Div,
            Token::Pow => Token::Pow,
            Token::Equal => Token::Equal,
            Token::Greater => Token::Greater,
            Token::Less => Token::Less,
            Token::BitFlip => Token::BitFlip,
            Token::EOF => Token::EOF,
            Token::Ans => Token::Ans,
        })
        .collect()
}

fn parse_expr(input: &str, ans: f64) -> Box<Expr<f64>> {
    let s: String = input.to_string();
    let scanner = Scanner::new(&s).unwrap();
    Parser::new(numeric(&scanner.tokens), ans).parse().unwrap()
}

fn parse_result(input: &str, ans: f64) -> Result<Box<Expr<f64>>, String> {
    let s: String = input.to_string();
    let scanner = Scanner::new(&s).unwrap();
    Parser::new(numeric(&scanner.tokens), ans).parse()
}

/// The value of an expression, by floating-point arithmetic.
fn interpret(e: Expr<f64>) -> f64 {
    match e {
        Expr::Num(n) => n,
        Expr::Unary { op, expr } => match op {
            Token::Minus => -interpret(*expr),
            Token::BitFlip => !(interpret(*expr) as i64) as f64,
            _ => 0.0,
        },
        Expr::Binary { left, op, right } => match op {
            Token::Minus => interpret(*left) - interpret(*right),
            Token::Plus => interpret(*left) + interpret(*right),
            Token::Mult => interpret(*left) * interpret(*right),
            Token::Div => interpret(*left) / interpret(*right),
            Token::Pow => interpret(*left).powf(interpret(*right)),
            Token::Equal => ((interpret(*left) - interpret(*right)).abs() < 1e-10) as i64 as f64,
            Token::Greater => (interpret(*left) > interpret(*right)) as i64 as f64,
            Token::Less => (interpret(*left) < interpret(*right)) as i64 as f64,
            _ => 0.0,
        },
    }
}

fn num(x: f64) -> Box<Expr<f64>> {
    Box::new(Expr::Num(x))
}

fn bin(left: Box<Expr<f64>>, op: Token<f64>, right: Box<Expr<f64>>) -> Box<Expr<f64>> {
    Box::new(Expr::Binary { left, op, right })
}

#[test]
fn tokenizer() {
    let s = "1.33 + 2.5 * -(3 + 2 -- 3)".to_string();
    let scanner = Scanner::new(&s).unwrap();
    let toks = vec![
        Token::Num(1.33),
        Token::Plus,
        Token::Num(2.5),
        Token::Mult,
        Token::Minus,
        Token::LeftPar,
        Token::Num(3.0),
        Token::Plus,
        Token::Num(2.0),
        Token::Minus,
        Token::Minus,
        Token::Num(3.0),
        Token::RightPar,
        Token::EOF,
    ];

    assert_eq!(numeric(&scanner.tokens), toks);
}

#[test]
fn test_parse_simple() {
    let ast = parse_expr("1 + 2", 0.0);
    let expected = Box::new(Expr::Binary {
        left: Box::new(Expr::Num(1.0)),
        op: Token::Plus,
        right: Box::new(Expr::Num(2.0)),
    });
    assert_eq!(ast, expected);
}

#[test]
fn test_parse_neg() {
    let ast = parse_expr("1 + -2", 0.0);
    let expected = Box::new(Expr::Binary {
        left: Box::new(Expr::Num(1.0)),
        op: Token::Plus,
        right: Box::new(Expr::Unary {
            op: Token::Minus,
            expr: Box::new(Expr::Num(2.0)),
        }),
    });
    assert_eq!(ast, expected);
}

#[test]
fn test_parse_invalid_easy() {
    assert!(Scanner::new(&"1 + * 2".to_string())
        .ok()
        .and_then(|s| Parser::new(numeric(&s.tokens), 0.0).parse().ok())
        .is_none());
}

#[test]
fn test_parse_invalid_unfinished() {
    assert!(Scanner::new(&"1 + (2 * 3) - ".to_string())
        .ok()
        .and_then(|s| Parser::new(numeric(&s.tokens), 0.0).parse().ok())
        .is_none());
}

#[test]
fn test_invalid_number() {
    assert!(Scanner::new(&"1..2".to_string()).is_err());
}

#[test]
fn literals_keep_their_bytes() {
    let scanner = Scanner::new(&" .5 x 10a".to_string()).unwrap();
    assert_eq!(
        scanner.tokens,
        vec![Token::Num(b".5".to_vec()), Token::Mult, Token::Num(b"10".to_vec()), Token::Ans, Token::EOF]
    );
    assert_eq!(scanner.tokens[1].to_term(), Terminal::Mult);
}

#[test]
fn scanner_rejects_bad_literals_and_characters() {
    assert_eq!(Scanner::new(&"5.".to_string()).err(), Some("Illegal token".to_string()));
    assert!(Scanner::new(&"1 $ 2".to_string()).is_err());
    assert!(Scanner::new(&"1.2.3".to_string()).is_err());
    assert!(Scanner::new(&"\u{3000}7\t".to_string()).is_ok());
}

#[test]
fn scanner_without_end_marker() {
    let scanner = Scanner::new_without_eof(&"(1)".to_string()).unwrap();
    assert_eq!(scanner.tokens, vec![Token::LeftPar, Token::Num(b"1".to_vec()), Token::RightPar]);
}

#[test]
fn subtraction_groups_to_the_left() {
    let ast = parse_expr("1 - 2 - 3 - 4", 0.0);
    let expected = bin(bin(bin(num(1.0), Token::Minus, num(2.0)), Token::Minus, num(3.0)), Token::Minus, num(4.0));
    assert_eq!(ast, expected);
}

#[test]
fn powers_group_to_the_right() {
    let ast = parse_expr("2^3^4", 0.0);
    let expected = bin(num(2.0), Token::Pow, bin(num(3.0), Token::Pow, num(4.0)));
    assert_eq!(ast, expected);
}

#[test]
fn products_bind_tighter_than_sums_and_comparisons() {
    let ast = parse_expr("1 * 2 + 3 > 4", 0.0);
    let expected = bin(bin(bin(num(1.0), Token::Mult, num(2.0)), Token::Plus, num(3.0)), Token::Greater, num(4.0));
    assert_eq!(ast, expected);
}

#[test]
fn parentheses_and_previous_answer() {
    let ast = parse_expr("1 + (2 + 3) - a", 7.5);
    let expected = bin(bin(num(1.0), Token::Plus, bin(num(2.0), Token::Plus, num(3.0))), Token::Minus, num(7.5));
    assert_eq!(ast, expected);
}

#[test]
fn parser_error_messages() {
    assert_eq!(parse_result("(1 + 2", 0.0).err(), Some("Missing right parentheses".to_string()));
    assert_eq!(parse_result("1 +", 0.0).err(), Some("Fail to parse".to_string()));
    assert_eq!(
        parse_result("1 2", 0.0).err(),
        Some("Garbage input at the end, though this should never be called anyways".to_string())
    );
    let mut p = Parser::new(vec![Token::Minus], 0.0f64);
    assert_eq!(p.parse().err(), Some("Fail to parse".to_string()));
}

#[test]
fn test_parse_parentheses() {
    let ast = parse_expr("1 + (2 + 3) - 2", 0.0);
    assert_eq!(interpret(*ast), 4.0);
}

#[test]
fn test_parse_left_associative() {
    let ast = parse_expr("1 - 2 - 3 - 4", 0.0);
    assert_eq!(interpret(*ast), -8.0);
}

#[test]
fn test_parse_order() {
    let ast = parse_expr("1 * 2 + 3", 0.0);
    assert_eq!(interpret(*ast), 5.0);
}

#[test]
fn test_parse_order_pow() {
    let ast = parse_expr("2^3^4", 0.0);
    assert_eq!(interpret(*ast), 2f64.powf(3f64.powf(4.0)));
}

#[test]
fn a_failed_parse_leaves_the_offending_token() {
    let mut p = Parser::new(vec![Token::Plus, Token::EOF], 0.0f64);
    assert_eq!(p.parse_terminal(), Err("Fail to parse".to_string()));
    assert_eq!(p.pos, 0);
    let mut q = Parser::new(vec![Token::LeftPar, Token::Num(1.0f64), Token::EOF], 0.0f64);
    assert_eq!(q.parse_terminal(), Err("Missing right parentheses".to_string()));
    assert_eq!(q.pos, 2);
    let mut u = Parser::new(vec![Token::Minus, Token::Minus, Token::Mult, Token::EOF], 0.0f64);
    assert!(u.parse_unary().is_err());
    assert_eq!(u.pos, 2);
    assert_eq!(Scanner::new(&"1 $ 2".to_string()).err(), Some("Illegal token".to_string()));
    assert_eq!(Scanner::new_without_eof(&"1..2".to_string()).err(), Some("Illegal token".to_string()));
}
