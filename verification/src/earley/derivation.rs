//! Where each recorded item comes from: the start item, or one step of prediction,
//! scanning or completion from items recorded before it.
use vstd::prelude::*;
use crate::token::Terminal;
use crate::earley::grammar::{RuleView, Symbol};
use crate::earley::item::{ItemView, next_symbol_of, advanced, predicted_item};
use crate::earley::state::extends;

verus! {

/// `x` lies in set `i`.
pub open spec fn in_set(sets: Seq<Seq<ItemView>>, i: int, x: ItemView) -> bool {
    exists|j: int| 0 <= i < sets.len() && 0 <= j < sets[i].len() && #[trigger] sets[i][j] == x
}

/// `y`, in set `k`, predicts a rule for the nonterminal after the dot of an older item of set `k`.
pub open spec fn predicted_at(g: Seq<RuleView>, sets: Seq<Seq<ItemView>>, k: int, y: ItemView) -> bool {
    &&& k >= 0
    &&& y == predicted_item(g, y.rule_index, k as nat, y.id)
    &&& exists|p: ItemView|
        #[trigger] in_set(sets, k, p) && p.id < y.id && next_symbol_of(g, p) == Some(
            Symbol::NonTerm(g[y.rule_index as int].lhs),
        )
}

/// `y`, in set `k`, moves the dot of an older item of set `k - 1` over token `k - 1`.
pub open spec fn scanned_at(g: Seq<RuleView>, terms: Seq<Terminal>, sets: Seq<Seq<ItemView>>, k: int, y: ItemView) -> bool {
    &&& k > 0
    &&& exists|p: ItemView|
        #[trigger] in_set(sets, k - 1, p) && p.id < y.id && next_symbol_of(g, p) == Some(
            Symbol::Terminal(terms[k - 1]),
        ) && y == advanced(p, y.id, ((k - 1) as usize, y.id as usize))
}

/// `y`, in set `k`, moves the dot of an older item `p` over the left-hand side of an
/// older complete item `e` of set `k`; `p` lies in the set where `e` began.
pub open spec fn completed_at(g: Seq<RuleView>, sets: Seq<Seq<ItemView>>, k: int, y: ItemView) -> bool {
    exists|e: ItemView, p: ItemView|
        #[trigger] in_set(sets, k, e) && #[trigger] in_set(sets, e.start as int, p) && e.id < y.id && p.id < y.id
            && e.remains == 0 && e.start <= k && next_symbol_of(g, p) == Some(
            Symbol::NonTerm(g[e.rule_index as int].lhs),
        ) && y == advanced(p, y.id, (k as usize, e.id as usize))
}

/// Item `y` of set `k` is the start item (id 0, in the first set), or follows in one
/// step from items with smaller ids.
#[verifier::opaque]
pub open spec fn justified(g: Seq<RuleView>, terms: Seq<Terminal>, sets: Seq<Seq<ItemView>>, k: int, y: ItemView) -> bool {
    ||| (k == 0 && y == predicted_item(g, y.rule_index, 0, 0))
    ||| predicted_at(g, sets, k, y)
    ||| scanned_at(g, terms, sets, k, y)
    ||| completed_at(g, sets, k, y)
}

/// Every recorded item is justified.
#[verifier::opaque]
pub open spec fn sound(g: Seq<RuleView>, terms: Seq<Terminal>, sets: Seq<Seq<ItemView>>) -> bool {
    forall|k: int, j: int| 0 <= k < sets.len() && 0 <= j < sets[k].len() ==> justified(g, terms, sets, k, #[trigger] sets[k][j])
}

pub proof fn lemma_in_set_mono(s1: Seq<Seq<ItemView>>, s2: Seq<Seq<ItemView>>, i: int, x: ItemView)
    requires
        extends(s1, s2),
        in_set(s1, i, x),
    ensures
        in_set(s2, i, x),
{
    let j = choose|j: int| 0 <= i < s1.len() && 0 <= j < s1[i].len() && #[trigger] s1[i][j] == x;
    assert(s2[i][j] == s1[i][j]);
}

pub proof fn lemma_justified_mono(g: Seq<RuleView>, terms: Seq<Terminal>, s1: Seq<Seq<ItemView>>, s2: Seq<Seq<ItemView>>, k: int, y: ItemView)
    requires
        extends(s1, s2),
        justified(g, terms, s1, k, y),
    ensures
        justified(g, terms, s2, k, y),
{
    reveal(justified);
    if predicted_at(g, s1, k, y) {
        let p = choose|p: ItemView| #[trigger] in_set(s1, k, p) && p.id < y.id && next_symbol_of(g, p) == Some(
            Symbol::NonTerm(g[y.rule_index as int].lhs));
        lemma_in_set_mono(s1, s2, k, p);
        assert(predicted_at(g, s2, k, y));
    } else if scanned_at(g, terms, s1, k, y) {
        let p = choose|p: ItemView| #[trigger] in_set(s1, k - 1, p) && p.id < y.id && next_symbol_of(g, p) == Some(
            Symbol::Terminal(terms[k - 1])) && y == advanced(p, y.id, ((k - 1) as usize, y.id as usize));
        lemma_in_set_mono(s1, s2, k - 1, p);
        assert(scanned_at(g, terms, s2, k, y));
    } else if completed_at(g, s1, k, y) {
        let (e, p) = choose|e: ItemView, p: ItemView|
            #[trigger] in_set(s1, k, e) && #[trigger] in_set(s1, e.start as int, p) && e.id < y.id && p.id < y.id
                && e.remains == 0 && e.start <= k && next_symbol_of(g, p) == Some(
                Symbol::NonTerm(g[e.rule_index as int].lhs),
            ) && y == advanced(p, y.id, (k as usize, e.id as usize));
        lemma_in_set_mono(s1, s2, k, e);
        lemma_in_set_mono(s1, s2, e.start as int, p);
        assert(completed_at(g, s2, k, y));
    }
}

} // verus!
