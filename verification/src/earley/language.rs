//! The language of a grammar, and what the recogniser's item sets say of it: every
//! recorded item claims something true of the input (soundness), and every input
//! that the start rule derives is accepted (completeness).
use vstd::prelude::*;
use crate::token::Terminal;
use crate::earley::grammar::{RuleView, NonTerm, Symbol, grammar_wf, no_empty_rules};
use crate::earley::item::{ItemView, key, has_key, next_symbol_of};
use crate::earley::state::{sets_inv, item_ok};
use crate::earley::recogniser::{closed, next_key};
use crate::earley::item::{advanced, predicted_item};
use crate::earley::derivation::{sound, justified, in_set, predicted_at, scanned_at, completed_at};

verus! {

/// `m` splits the tokens `i..j` in two.
pub open spec fn split(i: int, m: int, j: int) -> bool {
    i <= m <= j
}

/// `r` is a rule for the nonterminal `a`.
pub open spec fn rule_for(g: Seq<RuleView>, a: NonTerm, r: int) -> bool {
    0 <= r < g.len() && g[r].lhs == a
}

/// `syms` derives the terminals `t[i..j]`, with rule applications nested at most
/// `h` deep: its first symbol derives `t[i..m]` (a terminal matches one token, a
/// nonterminal derives them by one of its rules) and the rest derives `t[m..j]`.
pub open spec fn derives(g: Seq<RuleView>, syms: Seq<Symbol>, t: Seq<Terminal>, i: int, j: int, h: nat) -> bool
    decreases h, syms.len(),
{
    if syms.len() == 0 {
        i == j
    } else {
        exists|m: int|
            #[trigger] split(i, m, j) && derives(g, syms.drop_first(), t, m, j, h) && match syms[0] {
                Symbol::Terminal(x) => 0 <= i < t.len() && m == i + 1 && t[i] == x,
                Symbol::NonTerm(a) => h > 0 && exists|r: int|
                    #[trigger] rule_for(g, a, r) && derives(g, g[r].rhs, t, i, m, (h - 1) as nat),
            }
    }
}

/// Every item of every set has had its consequences recorded at its position.
pub open spec fn all_closed(g: Seq<RuleView>, terms: Seq<Terminal>, sets: Seq<Seq<ItemView>>) -> bool {
    forall|k: int, j: int|
        0 <= k < sets.len() && 0 <= j < sets[k].len() ==> closed(g, terms, sets, k as nat, #[trigger] sets[k][j])
}

/// A non-empty sequence of symbols derives at least one token.
proof fn lemma_derives_advances(g: Seq<RuleView>, syms: Seq<Symbol>, t: Seq<Terminal>, i: int, j: int, h: nat)
    requires
        no_empty_rules(g),
        syms.len() > 0,
        derives(g, syms, t, i, j, h),
    ensures
        i < j,
    decreases h, syms.len(),
{
    let m = choose|m: int|
        #[trigger] split(i, m, j) && derives(g, syms.drop_first(), t, m, j, h) && match syms[0] {
            Symbol::Terminal(x) => 0 <= i < t.len() && m == i + 1 && t[i] == x,
            Symbol::NonTerm(a) => h > 0 && exists|r: int|
                #[trigger] rule_for(g, a, r) && derives(g, g[r].rhs, t, i, m, (h - 1) as nat),
        };
    if let Symbol::NonTerm(a) = syms[0] {
        let r = choose|r: int| #[trigger] rule_for(g, a, r) && derives(g, g[r].rhs, t, i, m, (h - 1) as nat);
        assert(g[r].rhs.len() > 0) by {
            reveal(no_empty_rules);
        }
        lemma_derives_advances(g, g[r].rhs, t, i, m, (h - 1) as nat);
    }
}

/// If the item of rule `r` from `i` with `d` symbols matched lies in set `k`, and
/// symbols `d..e` of the rule derive the tokens `k..j`, then the item with `e`
/// symbols matched lies in set `j`.
proof fn lemma_items_extend(
    g: Seq<RuleView>,
    terms: Seq<Terminal>,
    sets: Seq<Seq<ItemView>>,
    c: nat,
    r: nat,
    i: nat,
    d: int,
    e: int,
    k: int,
    j: int,
    h: nat,
)
    requires
        sets_inv(g, terms.len(), sets, c),
        all_closed(g, terms, sets),
        no_empty_rules(g),
        r < g.len(),
        0 <= d <= e <= g[r as int].rhs.len(),
        0 <= k <= j <= terms.len(),
        has_key(sets[k], (r, i, d as nat)),
        derives(g, g[r as int].rhs.subrange(d, e), terms, k, j, h),
    ensures
        has_key(sets[j], (r, i, e as nat)),
    decreases h, e - d,
{
    let rhs = g[r as int].rhs;
    if d < e {
        let s = rhs.subrange(d, e);
        assert(s[0] == rhs[d]);
        assert(s.drop_first() =~= rhs.subrange(d + 1, e));
        let m = choose|m: int|
            #[trigger] split(k, m, j) && derives(g, s.drop_first(), terms, m, j, h) && match s[0] {
                Symbol::Terminal(x) => 0 <= k < terms.len() && m == k + 1 && terms[k] == x,
                Symbol::NonTerm(a) => h > 0 && exists|r2: int|
                    #[trigger] rule_for(g, a, r2) && derives(g, g[r2].rhs, terms, k, m, (h - 1) as nat),
            };
        let jj = choose|jj: int| 0 <= jj < sets[k].len() && key(#[trigger] sets[k][jj]) == (r, i, d as nat);
        let p = sets[k][jj];
        assert(item_ok(g, terms.len(), p, k as nat));
        assert(grammar_wf(g));
        assert(g[r as int].length == rhs.len());
        assert(next_symbol_of(g, p) == Some(rhs[d]));
        assert(closed(g, terms, sets, k as nat, p));
        assert(next_key(p) == (r, i, (d + 1) as nat));
        match rhs[d] {
            Symbol::Terminal(x) => {
                assert(has_key(sets[k + 1], next_key(p)));
            },
            Symbol::NonTerm(a) => {
                let r2 = choose|r2: int| #[trigger] rule_for(g, a, r2) && derives(g, g[r2].rhs, terms, k, m, (h - 1) as nat);
                let len2 = g[r2].rhs.len();
                assert(g[r2].lhs == a);
                assert(has_key(sets[k], (r2 as nat, k as nat, 0nat)));
                assert(g[r2].rhs.subrange(0, len2 as int) =~= g[r2].rhs);
                lemma_items_extend(g, terms, sets, c, r2 as nat, k as nat, 0, len2 as int, k, m, (h - 1) as nat);
                assert(g[r2].rhs.len() > 0) by {
                    reveal(no_empty_rules);
                }
                lemma_derives_advances(g, g[r2].rhs, terms, k, m, (h - 1) as nat);
                let jx = choose|jx: int| 0 <= jx < sets[m].len() && key(#[trigger] sets[m][jx]) == (r2 as nat, k as nat, len2);
                let x = sets[m][jx];
                assert(item_ok(g, terms.len(), x, m as nat));
                assert(g[r2].length == len2);
                assert(next_symbol_of(g, x) is None);
                assert(closed(g, terms, sets, m as nat, x));
                assert(has_key(sets[m], next_key(sets[k][jj])));
            },
        }
        lemma_items_extend(g, terms, sets, c, r, i, d + 1, e, m, j, h);
    } else {
        assert(derives(g, rhs.subrange(d, e), terms, k, j, h));
        assert(rhs.subrange(d, e).len() == 0);
    }
}

/// Completeness: once every set is closed and the start item is in the first set,
/// every input that the start rule derives has the completed start item in the last set.
pub proof fn lemma_accepts_language(
    g: Seq<RuleView>,
    terms: Seq<Terminal>,
    sets: Seq<Seq<ItemView>>,
    c: nat,
    start_rule: nat,
    h: nat,
)
    requires
        sets_inv(g, terms.len(), sets, c),
        all_closed(g, terms, sets),
        no_empty_rules(g),
        start_rule < g.len(),
        has_key(sets[0], (start_rule, 0nat, 0nat)),
        derives(g, g[start_rule as int].rhs, terms, 0, terms.len() as int, h),
    ensures
        has_key(sets[terms.len() as int], (start_rule, 0nat, g[start_rule as int].length)),
{
    let rhs = g[start_rule as int].rhs;
    assert(rhs.subrange(0, rhs.len() as int) =~= rhs);
    lemma_items_extend(g, terms, sets, c, start_rule, 0, 0, rhs.len() as int, 0, terms.len() as int, h);
}

} // verus!
verus! {

/// `syms` derives the terminals `t[i..j]`, with rule applications nested to some depth.
pub open spec fn derivable(g: Seq<RuleView>, syms: Seq<Symbol>, t: Seq<Terminal>, i: int, j: int) -> bool {
    exists|h: nat| #[trigger] derives(g, syms, t, i, j, h)
}

/// What an item of set `k` claims: the symbols before its dot derive the tokens
/// from its start to `k`.
pub open spec fn item_valid(g: Seq<RuleView>, t: Seq<Terminal>, k: int, y: ItemView) -> bool {
    derivable(g, g[y.rule_index as int].rhs.subrange(0, y.matched as int), t, y.start as int, k)
}

/// A derivation that may nest rules `h` deep may also be counted as nesting them deeper.
proof fn lemma_derives_mono(g: Seq<RuleView>, syms: Seq<Symbol>, t: Seq<Terminal>, i: int, j: int, h: nat, h2: nat)
    requires
        h <= h2,
        derives(g, syms, t, i, j, h),
    ensures
        derives(g, syms, t, i, j, h2),
    decreases h, syms.len(),
{
    if syms.len() > 0 {
        let m = choose|m: int|
            #[trigger] split(i, m, j) && derives(g, syms.drop_first(), t, m, j, h) && match syms[0] {
                Symbol::Terminal(x) => 0 <= i < t.len() && m == i + 1 && t[i] == x,
                Symbol::NonTerm(a) => h > 0 && exists|r: int|
                    #[trigger] rule_for(g, a, r) && derives(g, g[r].rhs, t, i, m, (h - 1) as nat),
            };
        lemma_derives_mono(g, syms.drop_first(), t, m, j, h, h2);
        if let Symbol::NonTerm(a) = syms[0] {
            let r = choose|r: int| #[trigger] rule_for(g, a, r) && derives(g, g[r].rhs, t, i, m, (h - 1) as nat);
            lemma_derives_mono(g, g[r].rhs, t, i, m, (h - 1) as nat, (h2 - 1) as nat);
            assert(rule_for(g, a, r) && derives(g, g[r].rhs, t, i, m, (h2 - 1) as nat));
        }
        assert(split(i, m, j));
    }
}

/// One symbol that derives `t[i..j]`, as a sequence of its own.
proof fn lemma_derives_one(g: Seq<RuleView>, s: Symbol, t: Seq<Terminal>, i: int, j: int, h: nat)
    requires
        i <= j,
        match s {
            Symbol::Terminal(x) => 0 <= i < t.len() && j == i + 1 && t[i] == x,
            Symbol::NonTerm(a) => h > 0 && exists|r: int|
                #[trigger] rule_for(g, a, r) && derives(g, g[r].rhs, t, i, j, (h - 1) as nat),
        },
    ensures
        derives(g, seq![s], t, i, j, h),
{
    let one = seq![s];
    assert(one[0] == s);
    assert(one.drop_first() =~= Seq::<Symbol>::empty());
    assert(derives(g, one.drop_first(), t, j, j, h));
    assert(split(i, j, j));
}

/// Derivations of two sequences, one after the other, derive the two together.
proof fn lemma_derives_append(g: Seq<RuleView>, a: Seq<Symbol>, b: Seq<Symbol>, t: Seq<Terminal>, i: int, m: int, j: int, h: nat)
    requires
        derives(g, a, t, i, m, h),
        derives(g, b, t, m, j, h),
        m <= j,
    ensures
        derives(g, a + b, t, i, j, h),
    decreases a.len(),
{
    if a.len() == 0 {
        assert(a + b =~= b);
    } else {
        let m1 = choose|m1: int|
            #[trigger] split(i, m1, m) && derives(g, a.drop_first(), t, m1, m, h) && match a[0] {
                Symbol::Terminal(x) => 0 <= i < t.len() && m1 == i + 1 && t[i] == x,
                Symbol::NonTerm(n) => h > 0 && exists|r: int|
                    #[trigger] rule_for(g, n, r) && derives(g, g[r].rhs, t, i, m1, (h - 1) as nat),
            };
        lemma_derives_append(g, a.drop_first(), b, t, m1, m, j, h);
        assert((a + b)[0] == a[0]);
        assert((a + b).drop_first() =~= a.drop_first() + b);
        assert(split(i, m1, j));
    }
}

/// Every item of sets whose items are all justified claims what is true: the
/// symbols before its dot derive the tokens from its start to its set.
pub proof fn lemma_sound_items_valid(g: Seq<RuleView>, terms: Seq<Terminal>, sets: Seq<Seq<ItemView>>, c: nat)
    requires
        sets_inv(g, terms.len(), sets, c),
        sound(g, terms, sets),
    ensures
        forall|k: int, j: int| 0 <= k < sets.len() && 0 <= j < sets[k].len() ==> item_valid(g, terms, k, #[trigger] sets[k][j]),
{
    lemma_valid_below(g, terms, sets, c, c);
}

proof fn lemma_valid_below(g: Seq<RuleView>, terms: Seq<Terminal>, sets: Seq<Seq<ItemView>>, c: nat, bound: nat)
    requires
        sets_inv(g, terms.len(), sets, c),
        sound(g, terms, sets),
        bound <= c,
    ensures
        forall|k: int, j: int| 0 <= k < sets.len() && 0 <= j < sets[k].len() && (#[trigger] sets[k][j]).id < bound ==> item_valid(g, terms, k, sets[k][j]),
    decreases bound,
{
    if bound > 0 {
        lemma_valid_below(g, terms, sets, c, (bound - 1) as nat);
        assert forall|k: int, j: int| 0 <= k < sets.len() && 0 <= j < sets[k].len() && (#[trigger] sets[k][j]).id < bound implies item_valid(g, terms, k, sets[k][j]) by {
            if sets[k][j].id == bound - 1 {
                lemma_item_valid_step(g, terms, sets, c, k, sets[k][j]);
            }
        }
    }
}

proof fn lemma_item_valid_step(g: Seq<RuleView>, terms: Seq<Terminal>, sets: Seq<Seq<ItemView>>, c: nat, k: int, y: ItemView)
    requires
        sets_inv(g, terms.len(), sets, c),
        sound(g, terms, sets),
        in_set(sets, k, y),
        forall|k2: int, j2: int| 0 <= k2 < sets.len() && 0 <= j2 < sets[k2].len() && (#[trigger] sets[k2][j2]).id < y.id ==> item_valid(g, terms, k2, sets[k2][j2]),
    ensures
        item_valid(g, terms, k, y),
{
    reveal(sound);
    reveal(justified);
    let jy = choose|jy: int| 0 <= k < sets.len() && 0 <= jy < sets[k].len() && #[trigger] sets[k][jy] == y;
    assert(justified(g, terms, sets, k, sets[k][jy]));
    if predicted_at(g, sets, k, y) || (k == 0 && y == predicted_item(g, y.rule_index, 0, 0)) {
        let rhs = g[y.rule_index as int].rhs;
        assert(rhs.subrange(0, 0) =~= Seq::<Symbol>::empty());
        assert(derives(g, rhs.subrange(0, y.matched as int), terms, y.start as int, k, 0));
    } else if scanned_at(g, terms, sets, k, y) {
        let p = choose|p: ItemView| #[trigger] in_set(sets, k - 1, p) && p.id < y.id && next_symbol_of(g, p) == Some(
            Symbol::Terminal(terms[k - 1])) && y == advanced(p, y.id, ((k - 1) as usize, y.id as usize));
        let jp = choose|jp: int| 0 <= k - 1 < sets.len() && 0 <= jp < sets[k - 1].len() && #[trigger] sets[k - 1][jp] == p;
        assert(item_valid(g, terms, k - 1, sets[k - 1][jp]));
        lemma_scan_valid(g, terms, k, p, y);
    } else {
        assert(completed_at(g, sets, k, y));
        let (e, p) = choose|e: ItemView, p: ItemView|
            #[trigger] in_set(sets, k, e) && #[trigger] in_set(sets, e.start as int, p) && e.id < y.id && p.id < y.id
                && e.remains == 0 && e.start <= k && next_symbol_of(g, p) == Some(
                Symbol::NonTerm(g[e.rule_index as int].lhs),
            ) && y == advanced(p, y.id, (k as usize, e.id as usize));
        let je = choose|je: int| 0 <= k < sets.len() && 0 <= je < sets[k].len() && #[trigger] sets[k][je] == e;
        let m = e.start as int;
        let jp = choose|jp: int| 0 <= m < sets.len() && 0 <= jp < sets[m].len() && #[trigger] sets[m][jp] == p;
        assert(item_valid(g, terms, k, sets[k][je]));
        assert(item_valid(g, terms, m, sets[m][jp]));
        assert(item_ok(g, terms.len(), sets[k][je], k as nat));
        lemma_complete_valid(g, terms, k, e, p, y);
    }
}

/// Moving the dot of a valid item of set `k - 1` over token `k - 1` gives a valid item of set `k`.
proof fn lemma_scan_valid(g: Seq<RuleView>, terms: Seq<Terminal>, k: int, p: ItemView, y: ItemView)
    requires
        0 < k <= terms.len(),
        item_valid(g, terms, k - 1, p),
        next_symbol_of(g, p) == Some(Symbol::Terminal(terms[k - 1])),
        y.rule_index == p.rule_index,
        y.matched == p.matched + 1,
        y.start == p.start,
    ensures
        item_valid(g, terms, k, y),
{
    let rhs = g[y.rule_index as int].rhs;
    let d = p.matched as int;
    let h = choose|h: nat| #[trigger] derives(g, rhs.subrange(0, d), terms, p.start as int, k - 1, h);
    lemma_derives_one(g, rhs[d], terms, k - 1, k, h);
    lemma_derives_append(g, rhs.subrange(0, d), seq![rhs[d]], terms, p.start as int, k - 1, k, h);
    assert(rhs.subrange(0, d) + seq![rhs[d]] =~= rhs.subrange(0, d + 1));
    assert(derives(g, rhs.subrange(0, y.matched as int), terms, y.start as int, k, h));
}

/// Moving the dot of a valid item `p` of set `e.start` over the left-hand side of a
/// valid complete item `e` of set `k` gives a valid item of set `k`.
proof fn lemma_complete_valid(g: Seq<RuleView>, terms: Seq<Terminal>, k: int, e: ItemView, p: ItemView, y: ItemView)
    requires
        0 <= e.rule_index < g.len(),
        e.matched == g[e.rule_index as int].rhs.len(),
        e.start <= k,
        item_valid(g, terms, k, e),
        item_valid(g, terms, e.start as int, p),
        next_symbol_of(g, p) == Some(Symbol::NonTerm(g[e.rule_index as int].lhs)),
        y.rule_index == p.rule_index,
        y.matched == p.matched + 1,
        y.start == p.start,
    ensures
        item_valid(g, terms, k, y),
{
    let m = e.start as int;
    let rhs = g[y.rule_index as int].rhs;
    let rhs_e = g[e.rule_index as int].rhs;
    assert(rhs_e.subrange(0, e.matched as int) =~= rhs_e);
    let h2 = choose|h2: nat| #[trigger] derives(g, rhs_e.subrange(0, e.matched as int), terms, m, k, h2);
    let d = p.matched as int;
    let h1 = choose|h1: nat| #[trigger] derives(g, rhs.subrange(0, d), terms, p.start as int, m, h1);
    let hh = h1 + h2 + 1;
    lemma_derives_mono(g, rhs_e, terms, m, k, h2, (hh - 1) as nat);
    lemma_derives_mono(g, rhs.subrange(0, d), terms, p.start as int, m, h1, hh);
    let a = g[e.rule_index as int].lhs;
    assert(rule_for(g, a, e.rule_index as int));
    lemma_derives_le(g, rhs_e, terms, m, k, h2);
    lemma_derives_one(g, rhs[d], terms, m, k, hh);
    lemma_derives_append(g, rhs.subrange(0, d), seq![rhs[d]], terms, p.start as int, m, k, hh);
    assert(rhs.subrange(0, d) + seq![rhs[d]] =~= rhs.subrange(0, d + 1));
    assert(derives(g, rhs.subrange(0, y.matched as int), terms, y.start as int, k, hh));
}

/// A derivation runs forwards.
pub proof fn lemma_derives_le(g: Seq<RuleView>, syms: Seq<Symbol>, t: Seq<Terminal>, i: int, j: int, h: nat)
    requires
        derives(g, syms, t, i, j, h),
    ensures
        i <= j,
{
    if syms.len() > 0 {
        let m = choose|m: int|
            #[trigger] split(i, m, j) && derives(g, syms.drop_first(), t, m, j, h) && match syms[0] {
                Symbol::Terminal(x) => 0 <= i < t.len() && m == i + 1 && t[i] == x,
                Symbol::NonTerm(a) => h > 0 && exists|r: int|
                    #[trigger] rule_for(g, a, r) && derives(g, g[r].rhs, t, i, m, (h - 1) as nat),
            };
    }
}

} // verus!
