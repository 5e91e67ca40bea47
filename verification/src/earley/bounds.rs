//! Counting arguments: a set of items without repeated keys is no larger than
//! the number of keys that its grammar and input allow.
use vstd::prelude::*;
use vstd::set_lib::{set_int_range, lemma_int_range, lemma_len_subset};
use crate::earley::grammar::RuleView;
use crate::earley::item::{ItemView, key, keys_distinct};

verus! {

/// The longest right-hand side of a grammar.
pub open spec fn max_len(g: Seq<RuleView>) -> nat
    decreases g.len(),
{
    if g.len() == 0 {
        0
    } else {
        let m = max_len(g.drop_last());
        if g.last().length > m {
            g.last().length
        } else {
            m
        }
    }
}

pub proof fn lemma_max_len(g: Seq<RuleView>)
    ensures
        forall|i: int| 0 <= i < g.len() ==> (#[trigger] g[i]).length <= max_len(g),
    decreases g.len(),
{
    if g.len() > 0 {
        lemma_max_len(g.drop_last());
        assert forall|i: int| 0 <= i < g.len() implies (#[trigger] g[i]).length <= max_len(g) by {
            if i < g.len() - 1 {
                assert(g[i] == g.drop_last()[i]);
            }
        }
    }
}

/// How many distinct keys items of `g` can have over an input of `n` tokens.
pub open spec fn key_bound(g: Seq<RuleView>, n: nat) -> nat {
    g.len() * (max_len(g) + 1) * (n + 1)
}

pub open spec fn code(it: ItemView, l1: nat, n1: nat) -> int {
    ((it.rule_index * l1 + it.matched) * n1 + it.start) as int
}

proof fn lemma_code_parts(x1: int, x2: int, s1: int, s2: int, n1: int)
    requires
        0 <= x1,
        0 <= x2,
        0 <= s1 < n1,
        0 <= s2 < n1,
        x1 * n1 + s1 == x2 * n1 + s2,
    ensures
        x1 == x2,
        s1 == s2,
{
    if x1 < x2 {
        assert(x1 * n1 + s1 < x2 * n1 + s2) by (nonlinear_arith)
            requires
                x1 < x2,
                0 <= s1 < n1,
                0 <= s2,
        ;
    } else if x2 < x1 {
        assert(x2 * n1 + s2 < x1 * n1 + s1) by (nonlinear_arith)
            requires
                x2 < x1,
                0 <= s2 < n1,
                0 <= s1,
        ;
    }
}

proof fn lemma_code_injective(a: ItemView, b: ItemView, l1: nat, n1: nat)
    requires
        a.matched < l1,
        b.matched < l1,
        a.start < n1,
        b.start < n1,
        code(a, l1, n1) == code(b, l1, n1),
    ensures
        key(a) == key(b),
{
    lemma_code_parts(
        (a.rule_index * l1 + a.matched) as int,
        (b.rule_index * l1 + b.matched) as int,
        a.start as int,
        b.start as int,
        n1 as int,
    );
    lemma_code_parts(
        a.rule_index as int,
        b.rule_index as int,
        a.matched as int,
        b.matched as int,
        l1 as int,
    );
}

proof fn lemma_code_range(a: ItemView, r: nat, l1: nat, n1: nat)
    requires
        a.rule_index < r,
        a.matched < l1,
        a.start < n1,
    ensures
        0 <= code(a, l1, n1) < r * l1 * n1,
{
    let x = a.rule_index * l1 + a.matched;
    assert(0 <= x < r * l1) by (nonlinear_arith)
        requires
            x == a.rule_index * l1 + a.matched,
            a.rule_index < r,
            a.matched < l1,
    ;
    assert(0 <= x * n1 + a.start < (r * l1 * n1) as int) by (nonlinear_arith)
        requires
            0 <= x < r * l1,
            a.start < n1,
    ;
}

/// Items with distinct keys inside a box of keys are no more than the box holds.
pub proof fn lemma_set_size(set: Seq<ItemView>, r: nat, l1: nat, n1: nat)
    requires
        keys_distinct(set),
        forall|j: int|
            0 <= j < set.len() ==> (#[trigger] set[j]).rule_index < r && set[j].matched < l1
                && set[j].start < n1,
    ensures
        set.len() <= r * l1 * n1,
{
    let codes = set.map_values(|it: ItemView| code(it, l1, n1));
    assert forall|a: int, b: int|
        0 <= a < codes.len() && 0 <= b < codes.len() && a != b implies codes[a] != codes[b] by {
        if codes[a] == codes[b] {
            lemma_code_injective(set[a], set[b], l1, n1);
        }
    }
    codes.unique_seq_to_set();
    lemma_int_range(0, (r * l1 * n1) as int);
    assert forall|x: int| codes.to_set().contains(x) implies set_int_range(0, (r * l1 * n1) as int).contains(
        x,
    ) by {
        let j = choose|j: int| 0 <= j < codes.len() && codes[j] == x;
        lemma_code_range(set[j], r, l1, n1);
    }
    lemma_len_subset(codes.to_set(), set_int_range(0, (r * l1 * n1) as int));
}

} // verus!
