//! Context-free grammars over the calculator's terminals, and the grammar of the
//! calculator language itself.
use vstd::prelude::*;
use crate::token::Terminal;

verus! {

#[derive(PartialEq, Eq, Structural, Clone, Copy, Debug, Hash)]
pub enum NonTerm {
    Expr,
    Comparison,
    Term,
    Factor,
    Pow,
    Unary,
    Terminal,
}

#[derive(PartialEq, Eq, Structural, Clone, Copy, Debug, Hash)]
pub enum Symbol {
    Terminal(Terminal),
    NonTerm(NonTerm),
}

/// A production `lhs -> rhs`; `length` is the number of symbols of `rhs`.
#[derive(Debug)]
pub struct Rule {
    pub lhs: NonTerm,
    pub rhs: Vec<Symbol>,
    pub length: usize,
}

#[derive(Debug)]
pub struct Grammar {
    pub rules: Vec<Rule>,
}

/// A production as a mathematical value.
#[verifier::ext_equal]
pub struct RuleView {
    pub lhs: NonTerm,
    pub rhs: Seq<Symbol>,
    pub length: nat,
}

impl View for Rule {
    type V = RuleView;

    open spec fn view(&self) -> RuleView {
        RuleView { lhs: self.lhs, rhs: self.rhs@, length: self.length as nat }
    }
}

impl View for Grammar {
    type V = Seq<RuleView>;

    open spec fn view(&self) -> Seq<RuleView> {
        self.rules@.map_values(|r: Rule| r@)
    }
}

/// Every rule's `length` is the length of its right-hand side.
pub open spec fn grammar_wf(g: Seq<RuleView>) -> bool {
    forall|i: int| 0 <= i < g.len() ==> (#[trigger] g[i]).length == g[i].rhs.len()
}

/// No rule has an empty right-hand side.
#[verifier::opaque]
pub open spec fn no_empty_rules(g: Seq<RuleView>) -> bool {
    forall|r: int| 0 <= r < g.len() ==> (#[trigger] g[r]).rhs.len() > 0
}

pub open spec fn nt(n: NonTerm) -> Symbol {
    Symbol::NonTerm(n)
}

pub open spec fn t(x: Terminal) -> Symbol {
    Symbol::Terminal(x)
}

pub open spec fn rule(lhs: NonTerm, rhs: Seq<Symbol>) -> RuleView {
    RuleView { lhs, rhs, length: rhs.len() }
}

/// The calculator grammar, with its left-recursive levels:
/// expr -> comparison;
/// comparison -> comparison (">" | "<") term | term;
/// term -> term ("+" | "-") factor | factor;
/// factor -> factor ("*" | "/") pow | pow;
/// pow -> unary "^" pow | unary;
/// unary -> ("~" | "-") unary | terminal;
/// terminal -> number | "A" | "(" expr ")".
pub open spec fn calculator_grammar() -> Seq<RuleView> {
    seq![
        rule(NonTerm::Expr, seq![nt(NonTerm::Comparison)]),
        rule(NonTerm::Comparison, seq![nt(NonTerm::Comparison), t(Terminal::Greater), nt(NonTerm::Term)]),
        rule(NonTerm::Comparison, seq![nt(NonTerm::Comparison), t(Terminal::Less), nt(NonTerm::Term)]),
        rule(NonTerm::Comparison, seq![nt(NonTerm::Term)]),
        rule(NonTerm::Term, seq![nt(NonTerm::Term), t(Terminal::Plus), nt(NonTerm::Factor)]),
        rule(NonTerm::Term, seq![nt(NonTerm::Term), t(Terminal::Minus), nt(NonTerm::Factor)]),
        rule(NonTerm::Term, seq![nt(NonTerm::Factor)]),
        rule(NonTerm::Factor, seq![nt(NonTerm::Factor), t(Terminal::Mult), nt(NonTerm::Pow)]),
        rule(NonTerm::Factor, seq![nt(NonTerm::Factor), t(Terminal::Div), nt(NonTerm::Pow)]),
        rule(NonTerm::Factor, seq![nt(NonTerm::Pow)]),
        rule(NonTerm::Pow, seq![nt(NonTerm::Unary), t(Terminal::Pow), nt(NonTerm::Pow)]),
        rule(NonTerm::Pow, seq![nt(NonTerm::Unary)]),
        rule(NonTerm::Unary, seq![t(Terminal::BitFlip), nt(NonTerm::Unary)]),
        rule(NonTerm::Unary, seq![t(Terminal::Minus), nt(NonTerm::Unary)]),
        rule(NonTerm::Unary, seq![nt(NonTerm::Terminal)]),
        rule(NonTerm::Terminal, seq![t(Terminal::Num)]),
        rule(NonTerm::Terminal, seq![t(Terminal::Ans)]),
        rule(NonTerm::Terminal, seq![t(Terminal::LeftPar), nt(NonTerm::Expr), t(Terminal::RightPar)]),
    ]
}

fn mk(lhs: NonTerm, rhs: Vec<Symbol>) -> (r: Rule)
    ensures
        r@ == rule(lhs, rhs@),
{
    let length = rhs.len();
    Rule { lhs, rhs, length }
}

/// The grammar of the calculator language.
pub fn init_grammar() -> (g: Grammar)
    ensures
        g@ == calculator_grammar(),
        grammar_wf(g@),
        no_empty_rules(g@),
{
    let rules = vec![
        // expr -> comparison
        mk(NonTerm::Expr, vec![Symbol::NonTerm(NonTerm::Comparison)]),
        // comparison -> comparison ">" term
        mk(NonTerm::Comparison, vec![Symbol::NonTerm(NonTerm::Comparison), Symbol::Terminal(Terminal::Greater), Symbol::NonTerm(NonTerm::Term)]),
        // comparison -> comparison "<" term
        mk(NonTerm::Comparison, vec![Symbol::NonTerm(NonTerm::Comparison), Symbol::Terminal(Terminal::Less), Symbol::NonTerm(NonTerm::Term)]),
        // comparison -> term
        mk(NonTerm::Comparison, vec![Symbol::NonTerm(NonTerm::Term)]),
        // term -> term "+" factor
        mk(NonTerm::Term, vec![Symbol::NonTerm(NonTerm::Term), Symbol::Terminal(Terminal::Plus), Symbol::NonTerm(NonTerm::Factor)]),
        // term -> term "-" factor
        mk(NonTerm::Term, vec![Symbol::NonTerm(NonTerm::Term), Symbol::Terminal(Terminal::Minus), Symbol::NonTerm(NonTerm::Factor)]),
        // term -> factor
        mk(NonTerm::Term, vec![Symbol::NonTerm(NonTerm::Factor)]),
        // factor -> factor "*" pow
        mk(NonTerm::Factor, vec![Symbol::NonTerm(NonTerm::Factor), Symbol::Terminal(Terminal::Mult), Symbol::NonTerm(NonTerm::Pow)]),
        // factor -> factor "/" pow
        mk(NonTerm::Factor, vec![Symbol::NonTerm(NonTerm::Factor), Symbol::Terminal(Terminal::Div), Symbol::NonTerm(NonTerm::Pow)]),
        // factor -> pow
        mk(NonTerm::Factor, vec![Symbol::NonTerm(NonTerm::Pow)]),
        // pow -> unary "^" pow (right associative)
        mk(NonTerm::Pow, vec![Symbol::NonTerm(NonTerm::Unary), Symbol::Terminal(Terminal::Pow), Symbol::NonTerm(NonTerm::Pow)]),
        // pow -> unary
        mk(NonTerm::Pow, vec![Symbol::NonTerm(NonTerm::Unary)]),
        // unary -> "~" unary
        mk(NonTerm::Unary, vec![Symbol::Terminal(Terminal::BitFlip), Symbol::NonTerm(NonTerm::Unary)]),
        // unary -> "-" unary
        mk(NonTerm::Unary, vec![Symbol::Terminal(Terminal::Minus), Symbol::NonTerm(NonTerm::Unary)]),
        // unary -> terminal
        mk(NonTerm::Unary, vec![Symbol::NonTerm(NonTerm::Terminal)]),
        // terminal -> Num
        mk(NonTerm::Terminal, vec![Symbol::Terminal(Terminal::Num)]),
        // terminal -> Ans
        mk(NonTerm::Terminal, vec![Symbol::Terminal(Terminal::Ans)]),
        // terminal -> "(" expr ")"
        mk(NonTerm::Terminal, vec![Symbol::Terminal(Terminal::LeftPar), Symbol::NonTerm(NonTerm::Expr), Symbol::Terminal(Terminal::RightPar)]),
    ];
    let g = Grammar { rules };
    assert(g@ =~~= calculator_grammar());
    assert(no_empty_rules(g@)) by {
        reveal(no_empty_rules);
    }
    g
}

} // verus!
