//! The recursive-descent parser of the calculator language.
//!
//! Grammar, from the loosest operators to the tightest:
//! expression -> comparison;
//! comparison -> term (("<" | ">" | "=") term)*;
//! term -> factor (("+" | "-") factor)*;
//! factor -> pow (("*" | "/") pow)*;
//! pow -> unary ("^" pow)?;
//! unary -> ("-" | "~") unary | terminal;
//! terminal -> number | "A" | "(" expression ")".
use vstd::prelude::*;
use crate::token::{Token, Expr};

verus! {

/// Why a parse failed.
#[derive(PartialEq, Eq, Structural, Clone, Copy, Debug)]
pub enum ParseFailure {
    FailToParse,
    MissingRightParen,
    TrailingInput,
}

/// The message the parser gives for each failure.
pub open spec fn failure_message(f: ParseFailure) -> Seq<char> {
    match f {
        ParseFailure::FailToParse => "Fail to parse"@,
        ParseFailure::MissingRightParen => "Missing right parentheses"@,
        ParseFailure::TrailingInput => "Garbage input at the end, though this should never be called anyways"@,
    }
}

/// A parse result: the expression and the position after it, or the failure and
/// the position the parser stops at (a token it cannot use is not consumed).
pub type Parsed<N> = Result<(Expr<N>, nat), (ParseFailure, nat)>;

pub open spec fn tok_at<N>(toks: Seq<Token<N>>, p: nat) -> Option<Token<N>> {
    if p < toks.len() {
        Some(toks[p as int])
    } else {
        None
    }
}

pub open spec fn is_relation_op<N>(t: Token<N>) -> bool {
    t is Greater || t is Less || t is Equal
}

pub open spec fn is_add_op<N>(t: Token<N>) -> bool {
    t is Plus || t is Minus
}

pub open spec fn is_mul_op<N>(t: Token<N>) -> bool {
    t is Mult || t is Div
}

/// Binary operators of one level are folded to the left. A level's loop carries on
/// only from a position after its left operand (`q < q2 <= toks.len()`), which
/// every successful parse gives (see the parser's `ensures`).
pub open spec fn bin<N>(left: Expr<N>, op: Token<N>, right: Expr<N>) -> Expr<N> {
    Expr::Binary { left: Box::new(left), op, right: Box::new(right) }
}

pub open spec fn g_expression<N>(toks: Seq<Token<N>>, p: nat, ans: N) -> Parsed<N>
    decreases toks.len() - p, 9int,
{
    g_comparison(toks, p, ans)
}

pub open spec fn g_comparison<N>(toks: Seq<Token<N>>, p: nat, ans: N) -> Parsed<N>
    decreases toks.len() - p, 8int,
{
    match g_term(toks, p, ans) {
        Ok((lhs, q)) => if p <= q <= toks.len() {
            g_comparison_rest(toks, q, ans, lhs)
        } else {
            Err((ParseFailure::FailToParse, q))
        },
        Err(e) => Err(e),
    }
}

pub open spec fn g_comparison_rest<N>(toks: Seq<Token<N>>, q: nat, ans: N, lhs: Expr<N>) -> Parsed<N>
    decreases toks.len() - q, 7int,
{
    if q < toks.len() && is_relation_op(toks[q as int]) {
        match g_term(toks, q + 1, ans) {
            Ok((rhs, q2)) => if q < q2 <= toks.len() {
                g_comparison_rest(toks, q2, ans, bin(lhs, toks[q as int], rhs))
            } else {
                Err((ParseFailure::FailToParse, q2))
            },
            Err(e) => Err(e),
        }
    } else {
        Ok((lhs, q))
    }
}

pub open spec fn g_term<N>(toks: Seq<Token<N>>, p: nat, ans: N) -> Parsed<N>
    decreases toks.len() - p, 6int,
{
    match g_factor(toks, p, ans) {
        Ok((lhs, q)) => if p <= q <= toks.len() {
            g_term_rest(toks, q, ans, lhs)
        } else {
            Err((ParseFailure::FailToParse, q))
        },
        Err(e) => Err(e),
    }
}

pub open spec fn g_term_rest<N>(toks: Seq<Token<N>>, q: nat, ans: N, lhs: Expr<N>) -> Parsed<N>
    decreases toks.len() - q, 5int,
{
    if q < toks.len() && is_add_op(toks[q as int]) {
        match g_factor(toks, q + 1, ans) {
            Ok((rhs, q2)) => if q < q2 <= toks.len() {
                g_term_rest(toks, q2, ans, bin(lhs, toks[q as int], rhs))
            } else {
                Err((ParseFailure::FailToParse, q2))
            },
            Err(e) => Err(e),
        }
    } else {
        Ok((lhs, q))
    }
}

pub open spec fn g_factor<N>(toks: Seq<Token<N>>, p: nat, ans: N) -> Parsed<N>
    decreases toks.len() - p, 4int,
{
    match g_pow(toks, p, ans) {
        Ok((lhs, q)) => if p <= q <= toks.len() {
            g_factor_rest(toks, q, ans, lhs)
        } else {
            Err((ParseFailure::FailToParse, q))
        },
        Err(e) => Err(e),
    }
}

pub open spec fn g_factor_rest<N>(toks: Seq<Token<N>>, q: nat, ans: N, lhs: Expr<N>) -> Parsed<N>
    decreases toks.len() - q, 3int,
{
    if q < toks.len() && is_mul_op(toks[q as int]) {
        match g_pow(toks, q + 1, ans) {
            Ok((rhs, q2)) => if q < q2 <= toks.len() {
                g_factor_rest(toks, q2, ans, bin(lhs, toks[q as int], rhs))
            } else {
                Err((ParseFailure::FailToParse, q2))
            },
            Err(e) => Err(e),
        }
    } else {
        Ok((lhs, q))
    }
}

/// `^` groups to the right: the right operand is again a `pow`.
pub open spec fn g_pow<N>(toks: Seq<Token<N>>, p: nat, ans: N) -> Parsed<N>
    decreases toks.len() - p, 2int,
{
    match g_unary(toks, p, ans) {
        Ok((lhs, q)) => if q < toks.len() && toks[q as int] is Pow {
            if p <= q {
                match g_pow(toks, q + 1, ans) {
                    Ok((rhs, q2)) => Ok((bin(lhs, toks[q as int], rhs), q2)),
                    Err(e) => Err(e),
                }
            } else {
                Err((ParseFailure::FailToParse, q))
            }
        } else {
            Ok((lhs, q))
        },
        Err(e) => Err(e),
    }
}

pub open spec fn g_unary<N>(toks: Seq<Token<N>>, p: nat, ans: N) -> Parsed<N>
    decreases toks.len() - p, 1int,
{
    if p >= toks.len() {
        Err((ParseFailure::FailToParse, p))
    } else if toks[p as int] is Minus || toks[p as int] is BitFlip {
        match g_unary(toks, p + 1, ans) {
            Ok((e, q)) => Ok((Expr::Unary { op: toks[p as int], expr: Box::new(e) }, q)),
            Err(e) => Err(e),
        }
    } else {
        g_terminal(toks, p, ans)
    }
}

pub open spec fn g_terminal<N>(toks: Seq<Token<N>>, p: nat, ans: N) -> Parsed<N>
    decreases toks.len() - p, 0int,
{
    if p >= toks.len() {
        Err((ParseFailure::FailToParse, p))
    } else {
        match toks[p as int] {
            Token::Num(n) => Ok((Expr::Num(n), p + 1)),
            Token::LeftPar => match g_expression(toks, p + 1, ans) {
                Ok((e, q)) => if q < toks.len() && toks[q as int] is RightPar {
                    Ok((e, q + 1))
                } else {
                    Err((ParseFailure::MissingRightParen, q))
                },
                Err(e) => Err(e),
            },
            Token::Ans => Ok((Expr::Num(ans), p + 1)),
            _ => Err((ParseFailure::FailToParse, p)),
        }
    }
}

/// A whole input: an expression followed by the end marker.
pub open spec fn g_parse<N>(toks: Seq<Token<N>>, ans: N) -> Result<Expr<N>, ParseFailure> {
    match g_expression(toks, 0, ans) {
        Ok((e, q)) => if q < toks.len() && toks[q as int] is EOF {
            Ok(e)
        } else {
            Err(ParseFailure::TrailingInput)
        },
        Err((f, _)) => Err(f),
    }
}

/// A number at `p` is a whole operand of every level whose operators do not
/// follow it.
proof fn lemma_number_operand<N>(toks: Seq<Token<N>>, p: nat, ans: N)
    requires
        p + 1 < toks.len(),
        toks[p as int] is Num,
    ensures
        g_unary(toks, p, ans) == Ok::<(Expr<N>, nat), (ParseFailure, nat)>((Expr::Num(toks[p as int]->Num_0), p + 1)),
        !(toks[p + 1int] is Pow) ==> g_pow(toks, p, ans) == Ok::<(Expr<N>, nat), (ParseFailure, nat)>((Expr::Num(toks[p as int]->Num_0), p + 1)),
        !(toks[p + 1int] is Pow) && !is_mul_op(toks[p + 1int]) ==> g_factor(toks, p, ans) == Ok::<(Expr<N>, nat), (ParseFailure, nat)>((Expr::Num(toks[p as int]->Num_0), p + 1)),
        !(toks[p + 1int] is Pow) && !is_mul_op(toks[p + 1int]) && !is_add_op(toks[p + 1int]) ==> g_term(toks, p, ans) == Ok::<(Expr<N>, nat), (ParseFailure, nat)>((Expr::Num(toks[p as int]->Num_0), p + 1)),
{
    let x = Expr::Num(toks[p as int]->Num_0);
    assert(g_terminal(toks, p, ans) == Ok::<(Expr<N>, nat), (ParseFailure, nat)>((x, p + 1)));
    assert(g_unary(toks, p, ans) == Ok::<(Expr<N>, nat), (ParseFailure, nat)>((x, p + 1)));
    if !(toks[p + 1int] is Pow) {
        assert(g_pow(toks, p, ans) == Ok::<(Expr<N>, nat), (ParseFailure, nat)>((x, p + 1)));
        if !is_mul_op(toks[p + 1int]) {
            assert(g_factor_rest(toks, p + 1, ans, x) == Ok::<(Expr<N>, nat), (ParseFailure, nat)>((x, p + 1)));
            assert(g_factor(toks, p, ans) == Ok::<(Expr<N>, nat), (ParseFailure, nat)>((x, p + 1)));
            if !is_add_op(toks[p + 1int]) {
                assert(g_term_rest(toks, p + 1, ans, x) == Ok::<(Expr<N>, nat), (ParseFailure, nat)>((x, p + 1)));
            }
        }
    }
}

/// An expression that ends at position `q`, where the end marker stands, is the
/// whole input's parse.
proof fn lemma_ends_at_marker<N>(toks: Seq<Token<N>>, e: Expr<N>, q: nat, ans: N)
    requires
        q + 1 == toks.len(),
        toks[q as int] is EOF,
        g_comparison(toks, 0, ans) == Ok::<(Expr<N>, nat), (ParseFailure, nat)>((e, q)),
    ensures
        g_parse(toks, ans) == Ok::<Expr<N>, ParseFailure>(e),
{
    assert(g_expression(toks, 0, ans) == Ok::<(Expr<N>, nat), (ParseFailure, nat)>((e, q)));
}

/// The comparison level takes every relation: a number, one of `<`, `>` and `=`,
/// a number and the end marker parse to that relation between the two numbers.
pub proof fn lemma_relations_parse<N>(x: N, op: Token<N>, y: N, ans: N)
    requires
        (op is Less) || (op is Greater) || (op is Equal),
    ensures
        g_parse(seq![Token::Num(x), op, Token::Num(y), Token::EOF], ans) == Ok::<Expr<N>, ParseFailure>(
            Expr::Binary { left: Box::new(Expr::Num(x)), op, right: Box::new(Expr::Num(y)) },
        ),
{
    let toks = seq![Token::Num(x), op, Token::Num(y), Token::EOF];
    let e = Expr::Binary { left: Box::new(Expr::Num(x)), op, right: Box::new(Expr::Num(y)) };
    lemma_number_operand(toks, 0, ans);
    lemma_number_operand(toks, 2, ans);
    assert(g_comparison_rest(toks, 3, ans, e) == Ok::<(Expr<N>, nat), (ParseFailure, nat)>((e, 3)));
    assert(g_comparison_rest(toks, 1, ans, Expr::Num(x)) == Ok::<(Expr<N>, nat), (ParseFailure, nat)>((e, 3)));
    lemma_ends_at_marker(toks, e, 3, ans);
}

/// The sum level takes `+` and `-`, the product level `*` and `/`, and `^` is a
/// power: a number, such an operator, a number and the end marker parse to that
/// operation on the two numbers.
pub proof fn lemma_arithmetic_parses<N>(x: N, op: Token<N>, y: N, ans: N)
    requires
        (op is Plus) || (op is Minus) || (op is Mult) || (op is Div) || (op is Pow),
    ensures
        g_parse(seq![Token::Num(x), op, Token::Num(y), Token::EOF], ans) == Ok::<Expr<N>, ParseFailure>(
            Expr::Binary { left: Box::new(Expr::Num(x)), op, right: Box::new(Expr::Num(y)) },
        ),
{
    let toks = seq![Token::Num(x), op, Token::Num(y), Token::EOF];
    let e = Expr::Binary { left: Box::new(Expr::Num(x)), op, right: Box::new(Expr::Num(y)) };
    lemma_number_operand(toks, 0, ans);
    lemma_number_operand(toks, 2, ans);
    if op is Pow {
        assert(g_pow(toks, 0, ans) == Ok::<(Expr<N>, nat), (ParseFailure, nat)>((e, 3)));
        assert(g_factor_rest(toks, 3, ans, e) == Ok::<(Expr<N>, nat), (ParseFailure, nat)>((e, 3)));
        assert(g_factor(toks, 0, ans) == Ok::<(Expr<N>, nat), (ParseFailure, nat)>((e, 3)));
        assert(g_term_rest(toks, 3, ans, e) == Ok::<(Expr<N>, nat), (ParseFailure, nat)>((e, 3)));
    } else if op is Mult || op is Div {
        assert(g_factor_rest(toks, 3, ans, e) == Ok::<(Expr<N>, nat), (ParseFailure, nat)>((e, 3)));
        assert(g_factor_rest(toks, 1, ans, Expr::Num(x)) == Ok::<(Expr<N>, nat), (ParseFailure, nat)>((e, 3)));
        assert(g_factor(toks, 0, ans) == Ok::<(Expr<N>, nat), (ParseFailure, nat)>((e, 3)));
        assert(g_term_rest(toks, 3, ans, e) == Ok::<(Expr<N>, nat), (ParseFailure, nat)>((e, 3)));
    } else {
        assert(g_term_rest(toks, 3, ans, e) == Ok::<(Expr<N>, nat), (ParseFailure, nat)>((e, 3)));
        assert(g_term_rest(toks, 1, ans, Expr::Num(x)) == Ok::<(Expr<N>, nat), (ParseFailure, nat)>((e, 3)));
    }
    assert(g_term(toks, 0, ans) == Ok::<(Expr<N>, nat), (ParseFailure, nat)>((e, 3)));
    assert(g_comparison_rest(toks, 3, ans, e) == Ok::<(Expr<N>, nat), (ParseFailure, nat)>((e, 3)));
    lemma_ends_at_marker(toks, e, 3, ans);
}

/// `-` and `~` before a number apply to it: they parse to that unary operation.
pub proof fn lemma_prefix_parses<N>(op: Token<N>, x: N, ans: N)
    requires
        (op is Minus) || (op is BitFlip),
    ensures
        g_parse(seq![op, Token::Num(x), Token::EOF], ans) == Ok::<Expr<N>, ParseFailure>(
            Expr::Unary { op, expr: Box::new(Expr::Num(x)) },
        ),
{
    let toks = seq![op, Token::Num(x), Token::EOF];
    let e = Expr::Unary { op, expr: Box::new(Expr::Num(x)) };
    lemma_number_operand(toks, 1, ans);
    assert(g_unary(toks, 0, ans) == Ok::<(Expr<N>, nat), (ParseFailure, nat)>((e, 2)));
    assert(g_pow(toks, 0, ans) == Ok::<(Expr<N>, nat), (ParseFailure, nat)>((e, 2)));
    assert(g_factor_rest(toks, 2, ans, e) == Ok::<(Expr<N>, nat), (ParseFailure, nat)>((e, 2)));
    assert(g_factor(toks, 0, ans) == Ok::<(Expr<N>, nat), (ParseFailure, nat)>((e, 2)));
    assert(g_term_rest(toks, 2, ans, e) == Ok::<(Expr<N>, nat), (ParseFailure, nat)>((e, 2)));
    assert(g_term(toks, 0, ans) == Ok::<(Expr<N>, nat), (ParseFailure, nat)>((e, 2)));
    assert(g_comparison_rest(toks, 2, ans, e) == Ok::<(Expr<N>, nat), (ParseFailure, nat)>((e, 2)));
    lemma_ends_at_marker(toks, e, 2, ans);
}

/// A sum that runs from the start to the end marker at `q` is the whole input's parse.
proof fn lemma_term_is_parse<N>(toks: Seq<Token<N>>, e: Expr<N>, q: nat, ans: N)
    requires
        q + 1 == toks.len(),
        toks[q as int] is EOF,
        g_term(toks, 0, ans) == Ok::<(Expr<N>, nat), (ParseFailure, nat)>((e, q)),
    ensures
        g_parse(toks, ans) == Ok::<Expr<N>, ParseFailure>(e),
{
    assert(g_comparison_rest(toks, q, ans, e) == Ok::<(Expr<N>, nat), (ParseFailure, nat)>((e, q)));
    lemma_ends_at_marker(toks, e, q, ans);
}

/// A power that runs from the start to the end marker at `q` is the whole input's parse.
proof fn lemma_pow_is_parse<N>(toks: Seq<Token<N>>, e: Expr<N>, q: nat, ans: N)
    requires
        q + 1 == toks.len(),
        toks[q as int] is EOF,
        g_pow(toks, 0, ans) == Ok::<(Expr<N>, nat), (ParseFailure, nat)>((e, q)),
    ensures
        g_parse(toks, ans) == Ok::<Expr<N>, ParseFailure>(e),
{
    assert(g_factor_rest(toks, q, ans, e) == Ok::<(Expr<N>, nat), (ParseFailure, nat)>((e, q)));
    assert(g_factor(toks, 0, ans) == Ok::<(Expr<N>, nat), (ParseFailure, nat)>((e, q)));
    assert(g_term_rest(toks, q, ans, e) == Ok::<(Expr<N>, nat), (ParseFailure, nat)>((e, q)));
    lemma_term_is_parse(toks, e, q, ans);
}

/// Operators of the sum level group to the left: `x a y b z` with `a` and `b` each
/// `+` or `-` is `(x a y) b z`.
pub proof fn lemma_sums_group_left<N>(x: N, a: Token<N>, y: N, b: Token<N>, z: N, ans: N)
    requires
        (a is Plus) || (a is Minus),
        (b is Plus) || (b is Minus),
    ensures
        g_parse(seq![Token::Num(x), a, Token::Num(y), b, Token::Num(z), Token::EOF], ans) == Ok::<Expr<N>, ParseFailure>(
            Expr::Binary {
                left: Box::new(Expr::Binary { left: Box::new(Expr::Num(x)), op: a, right: Box::new(Expr::Num(y)) }),
                op: b,
                right: Box::new(Expr::Num(z)),
            },
        ),
{
    let toks = seq![Token::Num(x), a, Token::Num(y), b, Token::Num(z), Token::EOF];
    let l = Expr::Binary { left: Box::new(Expr::Num(x)), op: a, right: Box::new(Expr::Num(y)) };
    let e = Expr::Binary { left: Box::new(l), op: b, right: Box::new(Expr::Num(z)) };
    lemma_number_operand(toks, 0, ans);
    lemma_number_operand(toks, 2, ans);
    lemma_number_operand(toks, 4, ans);
    assert(g_term_rest(toks, 5, ans, e) == Ok::<(Expr<N>, nat), (ParseFailure, nat)>((e, 5)));
    assert(g_term_rest(toks, 3, ans, l) == Ok::<(Expr<N>, nat), (ParseFailure, nat)>((e, 5)));
    assert(g_term_rest(toks, 1, ans, Expr::Num(x)) == Ok::<(Expr<N>, nat), (ParseFailure, nat)>((e, 5)));
    lemma_term_is_parse(toks, e, 5, ans);
}

/// Products bind tighter than sums: `x a y b z` with `a` one of `+` and `-` and `b`
/// one of `*` and `/` is `x a (y b z)`.
pub proof fn lemma_products_bind_tighter<N>(x: N, a: Token<N>, y: N, b: Token<N>, z: N, ans: N)
    requires
        (a is Plus) || (a is Minus),
        (b is Mult) || (b is Div),
    ensures
        g_parse(seq![Token::Num(x), a, Token::Num(y), b, Token::Num(z), Token::EOF], ans) == Ok::<Expr<N>, ParseFailure>(
            Expr::Binary {
                left: Box::new(Expr::Num(x)),
                op: a,
                right: Box::new(Expr::Binary { left: Box::new(Expr::Num(y)), op: b, right: Box::new(Expr::Num(z)) }),
            },
        ),
{
    let toks = seq![Token::Num(x), a, Token::Num(y), b, Token::Num(z), Token::EOF];
    let r = Expr::Binary { left: Box::new(Expr::Num(y)), op: b, right: Box::new(Expr::Num(z)) };
    let e = Expr::Binary { left: Box::new(Expr::Num(x)), op: a, right: Box::new(r) };
    lemma_number_operand(toks, 0, ans);
    lemma_number_operand(toks, 2, ans);
    lemma_number_operand(toks, 4, ans);
    assert(g_factor_rest(toks, 5, ans, r) == Ok::<(Expr<N>, nat), (ParseFailure, nat)>((r, 5)));
    assert(g_factor_rest(toks, 3, ans, Expr::Num(y)) == Ok::<(Expr<N>, nat), (ParseFailure, nat)>((r, 5)));
    assert(g_factor(toks, 2, ans) == Ok::<(Expr<N>, nat), (ParseFailure, nat)>((r, 5)));
    assert(g_term_rest(toks, 5, ans, e) == Ok::<(Expr<N>, nat), (ParseFailure, nat)>((e, 5)));
    assert(g_term_rest(toks, 1, ans, Expr::Num(x)) == Ok::<(Expr<N>, nat), (ParseFailure, nat)>((e, 5)));
    lemma_term_is_parse(toks, e, 5, ans);
}

/// `^` groups to the right: `x ^ y ^ z` is `x ^ (y ^ z)`.
pub proof fn lemma_powers_group_right<N>(x: N, y: N, z: N, ans: N)
    ensures
        g_parse(seq![Token::Num(x), Token::Pow, Token::Num(y), Token::Pow, Token::Num(z), Token::EOF], ans)
            == Ok::<Expr<N>, ParseFailure>(
            Expr::Binary {
                left: Box::new(Expr::Num(x)),
                op: Token::Pow,
                right: Box::new(Expr::Binary { left: Box::new(Expr::Num(y)), op: Token::Pow, right: Box::new(Expr::Num(z)) }),
            },
        ),
{
    let toks = seq![Token::Num(x), Token::Pow, Token::Num(y), Token::Pow, Token::Num(z), Token::EOF];
    let r = Expr::Binary { left: Box::new(Expr::Num(y)), op: Token::Pow, right: Box::new(Expr::Num(z)) };
    let e = Expr::Binary { left: Box::new(Expr::Num(x)), op: Token::Pow, right: Box::new(r) };
    lemma_number_operand(toks, 0, ans);
    lemma_number_operand(toks, 2, ans);
    lemma_number_operand(toks, 4, ans);
    assert(g_pow(toks, 2, ans) == Ok::<(Expr<N>, nat), (ParseFailure, nat)>((r, 5)));
    assert(g_pow(toks, 0, ans) == Ok::<(Expr<N>, nat), (ParseFailure, nat)>((e, 5)));
    lemma_pow_is_parse(toks, e, 5, ans);
}

/// Parentheses only group: `( x )` is `x`.
pub proof fn lemma_parentheses_parse<N>(x: N, ans: N)
    ensures
        g_parse(seq![Token::LeftPar, Token::Num(x), Token::RightPar, Token::EOF], ans) == Ok::<Expr<N>, ParseFailure>(Expr::Num(x)),
{
    let toks = seq![Token::LeftPar, Token::Num(x), Token::RightPar, Token::EOF];
    let e = Expr::<N>::Num(x);
    lemma_number_operand(toks, 1, ans);
    assert(g_comparison_rest(toks, 2, ans, e) == Ok::<(Expr<N>, nat), (ParseFailure, nat)>((e, 2)));
    assert(g_comparison(toks, 1, ans) == Ok::<(Expr<N>, nat), (ParseFailure, nat)>((e, 2)));
    assert(g_expression(toks, 1, ans) == Ok::<(Expr<N>, nat), (ParseFailure, nat)>((e, 2)));
    assert(g_terminal(toks, 0, ans) == Ok::<(Expr<N>, nat), (ParseFailure, nat)>((e, 3)));
    assert(g_unary(toks, 0, ans) == Ok::<(Expr<N>, nat), (ParseFailure, nat)>((e, 3)));
    assert(g_pow(toks, 0, ans) == Ok::<(Expr<N>, nat), (ParseFailure, nat)>((e, 3)));
    lemma_pow_is_parse(toks, e, 3, ans);
}

/// `A` stands for the previous answer.
pub proof fn lemma_answer_parses<N>(ans: N)
    ensures
        g_parse(seq![Token::Ans, Token::EOF], ans) == Ok::<Expr<N>, ParseFailure>(Expr::Num(ans)),
{
    let toks = seq![Token::<N>::Ans, Token::EOF];
    let e = Expr::<N>::Num(ans);
    assert(g_terminal(toks, 0, ans) == Ok::<(Expr<N>, nat), (ParseFailure, nat)>((e, 1)));
    assert(g_unary(toks, 0, ans) == Ok::<(Expr<N>, nat), (ParseFailure, nat)>((e, 1)));
    assert(g_pow(toks, 0, ans) == Ok::<(Expr<N>, nat), (ParseFailure, nat)>((e, 1)));
    lemma_pow_is_parse(toks, e, 1, ans);
}

/// How an exec result matches a spec result from position `p`: the same expression
/// and end position, or the same failure's message with the parser stopped where the
/// spec result says.
pub open spec fn agrees<N>(r: Result<Box<Expr<N>>, String>, g: Parsed<N>, p: nat, end: nat) -> bool {
    match g {
        Ok((e, q)) => r is Ok && *r->Ok_0 == e && end == q && p <= q,
        Err((f, at)) => r is Err && r->Err_0@ == failure_message(f) && end == at,
    }
}

/// A recursive-descent parser over a token sequence.
pub struct Parser<N> {
    pub tokens: Vec<Token<N>>,
    pub pos: usize,
    pub ans: N,
}

fn fail_to_parse() -> (s: String)
    ensures
        s@ == failure_message(ParseFailure::FailToParse),
{
    let s = "Fail to parse".to_string();
    proof {
        broadcast use vstd::string::group_string_axioms;
    }
    s
}

impl<N: Copy> Parser<N> {
    /// A parser at the start of `tokens`; `ans` is what `A` stands for.
    pub fn new(tokens: Vec<Token<N>>, ans: N) -> (p: Parser<N>)
        ensures
            p.tokens@ == tokens@,
            p.pos == 0,
            p.ans == ans,
    {
        Parser { tokens, pos: 0, ans }
    }

    fn peek(&self) -> (t: Option<Token<N>>)
        ensures
            t == tok_at(self.tokens@, self.pos as nat),
    {
        if self.pos < self.tokens.len() {
            Some(self.tokens[self.pos])
        } else {
            None
        }
    }

    pub fn is_end(&self) -> (b: bool)
        ensures
            b == (self.pos < self.tokens.len() && self.tokens@[self.pos as int] is EOF),
    {
        match self.peek() {
            Some(Token::EOF) => true,
            _ => false,
        }
    }

    pub fn parse_expression(&mut self) -> (r: Result<Box<Expr<N>>, String>)
        requires
            old(self).pos <= old(self).tokens.len(),
        ensures
            final(self).tokens@ == old(self).tokens@,
            final(self).ans == old(self).ans,
            final(self).pos <= final(self).tokens.len(),
            agrees(r, g_expression(old(self).tokens@, old(self).pos as nat, old(self).ans), old(self).pos as nat, final(self).pos as nat),
        decreases old(self).tokens@.len() - old(self).pos, 9int,
    {
        self.parse_comparison()
    }

    pub fn parse_comparison(&mut self) -> (r: Result<Box<Expr<N>>, String>)
        requires
            old(self).pos <= old(self).tokens.len(),
        ensures
            final(self).tokens@ == old(self).tokens@,
            final(self).ans == old(self).ans,
            final(self).pos <= final(self).tokens.len(),
            agrees(r, g_comparison(old(self).tokens@, old(self).pos as nat, old(self).ans), old(self).pos as nat, final(self).pos as nat),
        decreases old(self).tokens@.len() - old(self).pos, 8int,
    {
        let ghost toks = self.tokens@;
        let ghost p0 = self.pos as nat;
        let mut lhs = self.parse_term()?;
        let ghost goal = g_comparison(toks, p0, self.ans);
        assert(goal == g_comparison_rest(toks, self.pos as nat, self.ans, *lhs));
        loop
            invariant
                self.tokens@ == toks,
                self.ans == old(self).ans,
                toks == old(self).tokens@,
                p0 == old(self).pos,
                goal == g_comparison(toks, p0, self.ans),
                p0 <= self.pos <= self.tokens.len(),
                goal == g_comparison_rest(toks, self.pos as nat, self.ans, *lhs),
            decreases toks.len() - self.pos,
        {
            match self.peek() {
                Some(t) => {
                    if let Token::Greater | Token::Less | Token::Equal = t {
                        self.pos = self.pos + 1;
                        let rhs = self.parse_term()?;
                        lhs = Box::new(Expr::Binary { left: lhs, op: t, right: rhs });
                    } else {
                        return Ok(lhs);
                    }
                },
                None => {
                    return Ok(lhs);
                },
            }
        }
    }

    pub fn parse_term(&mut self) -> (r: Result<Box<Expr<N>>, String>)
        requires
            old(self).pos <= old(self).tokens.len(),
        ensures
            final(self).tokens@ == old(self).tokens@,
            final(self).ans == old(self).ans,
            final(self).pos <= final(self).tokens.len(),
            agrees(r, g_term(old(self).tokens@, old(self).pos as nat, old(self).ans), old(self).pos as nat, final(self).pos as nat),
        decreases old(self).tokens@.len() - old(self).pos, 6int,
    {
        let ghost toks = self.tokens@;
        let ghost p0 = self.pos as nat;
        let mut lhs = self.parse_factor()?;
        let ghost goal = g_term(toks, p0, self.ans);
        assert(goal == g_term_rest(toks, self.pos as nat, self.ans, *lhs));
        loop
            invariant
                self.tokens@ == toks,
                self.ans == old(self).ans,
                toks == old(self).tokens@,
                p0 == old(self).pos,
                goal == g_term(toks, p0, self.ans),
                p0 <= self.pos <= self.tokens.len(),
                goal == g_term_rest(toks, self.pos as nat, self.ans, *lhs),
            decreases toks.len() - self.pos,
        {
            match self.peek() {
                Some(t) => {
                    if let Token::Plus | Token::Minus = t {
                        self.pos = self.pos + 1;
                        let rhs = self.parse_factor()?;
                        lhs = Box::new(Expr::Binary { left: lhs, op: t, right: rhs });
                    } else {
                        return Ok(lhs);
                    }
                },
                None => {
                    return Ok(lhs);
                },
            }
        }
    }

    pub fn parse_factor(&mut self) -> (r: Result<Box<Expr<N>>, String>)
        requires
            old(self).pos <= old(self).tokens.len(),
        ensures
            final(self).tokens@ == old(self).tokens@,
            final(self).ans == old(self).ans,
            final(self).pos <= final(self).tokens.len(),
            agrees(r, g_factor(old(self).tokens@, old(self).pos as nat, old(self).ans), old(self).pos as nat, final(self).pos as nat),
        decreases old(self).tokens@.len() - old(self).pos, 4int,
    {
        let ghost toks = self.tokens@;
        let ghost p0 = self.pos as nat;
        let mut lhs = self.parse_pow()?;
        let ghost goal = g_factor(toks, p0, self.ans);
        assert(goal == g_factor_rest(toks, self.pos as nat, self.ans, *lhs));
        loop
            invariant
                self.tokens@ == toks,
                self.ans == old(self).ans,
                toks == old(self).tokens@,
                p0 == old(self).pos,
                goal == g_factor(toks, p0, self.ans),
                p0 <= self.pos <= self.tokens.len(),
                goal == g_factor_rest(toks, self.pos as nat, self.ans, *lhs),
            decreases toks.len() - self.pos,
        {
            match self.peek() {
                Some(t) => {
                    if let Token::Mult | Token::Div = t {
                        self.pos = self.pos + 1;
                        let rhs = self.parse_pow()?;
                        lhs = Box::new(Expr::Binary { left: lhs, op: t, right: rhs });
                    } else {
                        return Ok(lhs);
                    }
                },
                None => {
                    return Ok(lhs);
                },
            }
        }
    }

    pub fn parse_pow(&mut self) -> (r: Result<Box<Expr<N>>, String>)
        requires
            old(self).pos <= old(self).tokens.len(),
        ensures
            final(self).tokens@ == old(self).tokens@,
            final(self).ans == old(self).ans,
            final(self).pos <= final(self).tokens.len(),
            agrees(r, g_pow(old(self).tokens@, old(self).pos as nat, old(self).ans), old(self).pos as nat, final(self).pos as nat),
        decreases old(self).tokens@.len() - old(self).pos, 2int,
    {
        let lhs = self.parse_unary()?;
        if let Some(Token::Pow) = self.peek() {
            let t = self.tokens[self.pos];
            self.pos = self.pos + 1;
            let rhs = self.parse_pow()?;
            Ok(Box::new(Expr::Binary { left: lhs, op: t, right: rhs }))
        } else {
            Ok(lhs)
        }
    }

    pub fn parse_unary(&mut self) -> (r: Result<Box<Expr<N>>, String>)
        requires
            old(self).pos <= old(self).tokens.len(),
        ensures
            final(self).tokens@ == old(self).tokens@,
            final(self).ans == old(self).ans,
            final(self).pos <= final(self).tokens.len(),
            agrees(r, g_unary(old(self).tokens@, old(self).pos as nat, old(self).ans), old(self).pos as nat, final(self).pos as nat),
        decreases old(self).tokens@.len() - old(self).pos, 1int,
    {
        match self.peek() {
            None => Err(fail_to_parse()),
            Some(t) => {
                if let Token::Minus | Token::BitFlip = t {
                    self.pos = self.pos + 1;
                    let expr = self.parse_unary()?;
                    Ok(Box::new(Expr::Unary { op: t, expr: expr }))
                } else {
                    self.parse_terminal()
                }
            },
        }
    }

    pub fn parse_terminal(&mut self) -> (r: Result<Box<Expr<N>>, String>)
        requires
            old(self).pos <= old(self).tokens.len(),
        ensures
            final(self).tokens@ == old(self).tokens@,
            final(self).ans == old(self).ans,
            final(self).pos <= final(self).tokens.len(),
            agrees(r, g_terminal(old(self).tokens@, old(self).pos as nat, old(self).ans), old(self).pos as nat, final(self).pos as nat),
        decreases old(self).tokens@.len() - old(self).pos, 0int,
    {
        match self.peek() {
            None => Err(fail_to_parse()),
            Some(Token::Num(n)) => {
                self.pos = self.pos + 1;
                Ok(Box::new(Expr::Num(n)))
            },
            Some(Token::LeftPar) => {
                self.pos = self.pos + 1;
                let expr = self.parse_expression()?;
                if let Some(Token::RightPar) = self.peek() {
                    self.pos = self.pos + 1;
                    Ok(expr)
                } else {
                    let msg = "Missing right parentheses".to_string();
                    proof {
                        broadcast use vstd::string::group_string_axioms;
                    }
                    Err(msg)
                }
            },
            Some(Token::Ans) => {
                self.pos = self.pos + 1;
                Ok(Box::new(Expr::Num(self.ans)))
            },
            _ => Err(fail_to_parse()),
        }
    }

    /// Parses a whole input: an expression that the end marker follows.
    pub fn parse(&mut self) -> (r: Result<Box<Expr<N>>, String>)
        requires
            old(self).pos == 0,
        ensures
            match g_parse(old(self).tokens@, old(self).ans) {
                Ok(e) => r is Ok && *r->Ok_0 == e,
                Err(f) => r is Err && r->Err_0@ == failure_message(f),
            },
    {
        let expr = self.parse_expression()?;
        if !self.is_end() {
            let msg = "Garbage input at the end, though this should never be called anyways".to_string();
            proof {
                broadcast use vstd::string::group_string_axioms;
            }
            return Err(msg);
        }
        Ok(expr)
    }
}

} // verus!
