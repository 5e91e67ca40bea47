use rustlab::earley::forest::{start_id, start_id_vecs, Node, Parser};
use rustlab::earley::grammar::{init_grammar, NonTerm, Symbol};
use rustlab::earley::recogniser::Recogniser;
use rustlab::scanner::Scanner;
use rustlab::token::{Expr, Terminal, Token};

fn tokens(input: &str) -> Vec<Token<u32>> {
    let scanner = Scanner::new_without_eof(&input.to_string()).unwrap();
    scanner
        .tokens
        .iter()
        .map(|t| match t {
            Token::Num(b) => Token::Num(String::from_utf8(b.clone()).unwrap().parse::<u32>().unwrap()),
            Token::RightPar => Token::RightPar,
            Token::LeftPar => Token::LeftPar,
            Token::Plus => Token::Plus,
            Token::Minus => Token::Minus,
            Token::Mult => Token::Mult,
            Token::Div => Token::Div,
            Token::Pow => Token::Pow,
            Token::Equal => Token::Equal,
            Token::Greater => Token::Greater,
            Token::Less => Token::Less,
            Token::BitFlip => Token::BitFlip,
            Token::EOF => Token::EOF,
            Token::Ans => Token::Ans,
        })
        .collect()
}

fn recognises(input: &str) -> bool {
    let toks = tokens(input);
    let mut rec = Recogniser::new(init_grammar(), &toks);
    rec.recognise(0)
}

#[test]
fn the_grammar_has_its_rules() {
    let g = init_grammar();
    assert_eq!(g.rules.len(), 18);
    assert_eq!(g.rules[0].lhs, NonTerm::Expr);
    assert_eq!(g.rules[0].rhs, vec![Symbol::NonTerm(NonTerm::Comparison)]);
    assert_eq!(g.rules[17].rhs[2], Symbol::Terminal(Terminal::RightPar));
    assert!(g.rules.iter().all(|r| r.length == r.rhs.len()));
}

#[test]
fn recognises_expressions() {
    assert!(recognises("1"));
    assert!(recognises("1 + 2 * 3"));
    assert!(recognises("-1 ^ 2 ^ ~3 < 4"));
    assert!(recognises("(1 + 2) * a"));
}

#[test]
fn rejects_non_expressions() {
    assert!(!recognises(""));
    assert!(!recognises("1 +"));
    assert!(!recognises("* 2"));
    assert!(!recognises("1 2"));
    assert!(!recognises("(1 + 2"));
}

#[test]
fn one_parenthesis_closes_one_open_one() {
    assert!(!recognises("((1)"));
    assert!(!recognises("(1))"));
    assert!(recognises("((1))"));
    assert!(recognises("(1) + (2 * (3))"));
}

#[test]
fn sets_hold_the_start_item_and_fresh_ids() {
    let toks = tokens("1 + 2");
    let mut rec = Recogniser::new(init_grammar(), &toks);
    assert!(rec.recognise(0));
    assert_eq!(rec.s.len(), 4);
    assert_eq!(rec.s[0].items[0].rule_index, 0);
    assert_eq!(rec.s[0].items[0].id, 0);
    let total: usize = rec.s.iter().map(|s| s.items.len()).sum();
    assert_eq!(total, rec.counter);
    let mut ids: Vec<usize> = rec.s.iter().flat_map(|s| s.items.iter().map(|i| i.id)).collect();
    ids.sort();
    assert_eq!(ids, (0..rec.counter).collect::<Vec<usize>>());
    rec.clean();
    assert!(rec.s.is_empty());
}

#[test]
fn builds_the_tree_of_a_sum() {
    let toks = tokens("1 + 2");
    let mut rec = Recogniser::new(init_grammar(), &toks);
    assert!(rec.recognise(0));
    let map = Parser::make_map(&rec);
    let id = start_id(&rec, 0);
    assert!(start_id_vecs(&rec, 0).contains(&id));
    let node = Parser::build_tree_singular(id, &rec, &map);
    assert!(node.is_convertible());
    let expr = Expr::to_expr(&node);
    let expected = Expr::Binary {
        left: Box::new(Expr::Num(1)),
        op: Token::Plus,
        right: Box::new(Expr::Num(2)),
    };
    assert_eq!(expr, expected);
}

fn expression_of(input: &str) -> Expr<u32> {
    let toks = tokens(input);
    let mut rec = Recogniser::new(init_grammar(), &toks);
    assert!(rec.recognise(0));
    let map = Parser::make_map(&rec);
    let node = Parser::build_tree_singular(start_id(&rec, 0), &rec, &map);
    assert!(node.is_convertible());
    Expr::to_expr(&node)
}

#[test]
fn parentheses_only_group() {
    assert_eq!(expression_of("(1)"), Expr::Num(1));
    assert_eq!(expression_of("((7))"), Expr::Num(7));
    let expected = Expr::Binary {
        left: Box::new(Expr::Binary {
            left: Box::new(Expr::Num(1)),
            op: Token::Plus,
            right: Box::new(Expr::Num(2)),
        }),
        op: Token::Mult,
        right: Box::new(Expr::Num(3)),
    };
    assert_eq!(expression_of("(1 + 2) * 3"), expected);
}

#[test]
fn a_parenthesised_tree_converts_to_its_inside() {
    let inner = Node::NonTerm(NonTerm::Terminal, vec![Node::Terminal(Token::Num(5u32))]);
    let tree = Node::NonTerm(
        NonTerm::Terminal,
        vec![
            Node::Terminal(Token::LeftPar),
            Node::NonTerm(NonTerm::Terminal, vec![Node::Terminal(Token::Num(5u32))]),
            Node::Terminal(Token::RightPar),
        ],
    );
    assert!(tree.is_convertible());
    assert_eq!(Expr::to_expr(&tree), Expr::to_expr(&inner));
    assert_eq!(Expr::to_expr(&tree), Expr::Num(5));
}

#[test]
fn cartesian_takes_every_combination_in_order() {
    let rows: Vec<Vec<Node<u32>>> = vec![
        vec![Node::Terminal(Token::Num(1)), Node::Terminal(Token::Num(2))],
        vec![Node::Terminal(Token::Plus)],
        vec![Node::Terminal(Token::Num(3)), Node::Terminal(Token::Num(4))],
    ];
    let trees = Parser::cartesian(NonTerm::Term, &rows);
    let shown: Vec<String> = trees.iter().map(|t| format!("{:?}", t)).collect();
    let expect = |a: u32, b: u32| {
        format!(
            "{:?}",
            Node::NonTerm(
                NonTerm::Term,
                vec![Node::Terminal(Token::Num(a)), Node::Terminal(Token::Plus), Node::Terminal(Token::Num(b))]
            )
        )
    };
    assert_eq!(shown, vec![expect(1, 3), expect(1, 4), expect(2, 3), expect(2, 4)]);
    let none = Parser::cartesian::<u32>(NonTerm::Expr, &vec![]);
    assert_eq!(format!("{:?}", none), format!("{:?}", vec![Node::<u32>::NonTerm(NonTerm::Expr, vec![])]));
    let empty_row = Parser::cartesian::<u32>(NonTerm::Expr, &vec![vec![Node::Terminal(Token::Num(1))], vec![]]);
    assert!(empty_row.is_empty());
}

#[test]
fn all_trees_of_an_unambiguous_sum() {
    let toks = tokens("1 + 2 * 3");
    let mut rec = Recogniser::new(init_grammar(), &toks);
    assert!(rec.recognise(0));
    let map = Parser::make_map(&rec);
    let id = start_id(&rec, 0);
    let trees = Parser::build_trees(id, &rec, &map);
    assert_eq!(trees.len(), 1);
    let single = Parser::build_tree_singular(id, &rec, &map);
    assert_eq!(format!("{:?}", trees[0]), format!("{:?}", single));
    let expr = Expr::to_expr(&trees[0]);
    let expected = Expr::Binary {
        left: Box::new(Expr::Num(1)),
        op: Token::Plus,
        right: Box::new(Expr::Binary {
            left: Box::new(Expr::Num(2)),
            op: Token::Mult,
            right: Box::new(Expr::Num(3)),
        }),
    };
    assert_eq!(expr, expected);
}
