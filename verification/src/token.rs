//! Tokens and expression trees of the calculator language.
use vstd::prelude::*;

verus! {

/// A lexical token. `N` is what a number literal carries: the scanner gives
/// the literal's bytes, and callers that evaluate expressions put the number itself there.
#[derive(Clone, Copy, Debug, PartialEq)]
pub enum Token<N> {
    Num(N),
    RightPar,
    LeftPar,
    Plus,
    Minus,
    Mult,
    Div,
    Pow,
    Equal,
    Greater,
    Less,
    BitFlip,
    EOF,
    Ans,
}

/// The kind of a token, without the payload of a number.
#[derive(PartialEq, Eq, Structural, Clone, Copy, Debug, Hash)]
pub enum Terminal {
    Num,
    RightPar,
    LeftPar,
    Plus,
    Minus,
    Mult,
    Div,
    Pow,
    Equal,
    Greater,
    Less,
    BitFlip,
    EOF,
    Ans,
}

/// The kind of a token.
pub open spec fn term_of<N>(t: Token<N>) -> Terminal {
    match t {
        Token::Num(_) => Terminal::Num,
        Token::RightPar => Terminal::RightPar,
        Token::LeftPar => Terminal::LeftPar,
        Token::Plus => Terminal::Plus,
        Token::Minus => Terminal::Minus,
        Token::Mult => Terminal::Mult,
        Token::Div => Terminal::Div,
        Token::Pow => Terminal::Pow,
        Token::Equal => Terminal::Equal,
        Token::Greater => Terminal::Greater,
        Token::Less => Terminal::Less,
        Token::BitFlip => Terminal::BitFlip,
        Token::EOF => Terminal::EOF,
        Token::Ans => Terminal::Ans,
    }
}

/// The same token with the payload of a number taken by its view.
pub open spec fn token_view<N: View>(t: Token<N>) -> Token<N::V> {
    match t {
        Token::Num(n) => Token::Num(n@),
        Token::RightPar => Token::RightPar,
        Token::LeftPar => Token::LeftPar,
        Token::Plus => Token::Plus,
        Token::Minus => Token::Minus,
        Token::Mult => Token::Mult,
        Token::Div => Token::Div,
        Token::Pow => Token::Pow,
        Token::Equal => Token::Equal,
        Token::Greater => Token::Greater,
        Token::Less => Token::Less,
        Token::BitFlip => Token::BitFlip,
        Token::EOF => Token::EOF,
        Token::Ans => Token::Ans,
    }
}

impl<N> Token<N> {
    pub fn to_term(&self) -> (t: Terminal)
        ensures
            t == term_of(*self),
    {
        match self {
            Token::Num(_) => Terminal::Num,
            Token::RightPar => Terminal::RightPar,
            Token::LeftPar => Terminal::LeftPar,
            Token::Plus => Terminal::Plus,
            Token::Minus => Terminal::Minus,
            Token::Mult => Terminal::Mult,
            Token::Div => Terminal::Div,
            Token::Pow => Terminal::Pow,
            Token::Equal => Terminal::Equal,
            Token::Greater => Terminal::Greater,
            Token::Less => Terminal::Less,
            Token::BitFlip => Terminal::BitFlip,
            Token::EOF => Terminal::EOF,
            Token::Ans => Terminal::Ans,
        }
    }
}

/// An expression tree. Operators are kept as the tokens that spelled them.
#[derive(Debug, PartialEq)]
pub enum Expr<N> {
    Num(N),
    Unary { op: Token<N>, expr: Box<Expr<N>> },
    Binary { left: Box<Expr<N>>, op: Token<N>, right: Box<Expr<N>> },
}

} // verus!
