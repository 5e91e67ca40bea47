//! The invariant of the recogniser's item sets, and the facts that keep it.
use vstd::prelude::*;
use crate::earley::grammar::{RuleView, Symbol, grammar_wf};
use crate::earley::item::{ItemView, key, has_key, keys_distinct};
use crate::earley::bounds::{key_bound, max_len, lemma_max_len, lemma_set_size};

verus! {

/// How a recorded child of a dotted rule may look: a terminal's token lies in
/// the input; a nonterminal's completed item is older than the parent.
pub open spec fn child_ok(sym: Symbol, c: (usize, usize), id: nat, n: nat) -> bool {
    match sym {
        Symbol::Terminal(_) => c.0 < n,
        Symbol::NonTerm(_) => c.1 < id,
    }
}

/// An item that may stand in set `k` of the recogniser of `n` tokens.
pub open spec fn item_ok(g: Seq<RuleView>, n: nat, it: ItemView, k: nat) -> bool {
    &&& it.rule_index < g.len()
    &&& it.matched + it.remains == g[it.rule_index as int].length
    &&& it.start <= k
    &&& it.children.len() == g[it.rule_index as int].length
    &&& forall|i: int, m: int|
        0 <= i < it.children.len() && 0 <= m < it.children[i].len() ==> child_ok(
            g[it.rule_index as int].rhs[i],
            #[trigger] it.children[i][m],
            it.id,
            n,
        )
}

/// Some item of some set has this id.
pub open spec fn id_present(sets: Seq<Seq<ItemView>>, id: nat) -> bool {
    exists|k: int, j: int| 0 <= k < sets.len() && 0 <= j < sets[k].len() && (#[trigger] sets[k][j]).id == id
}

/// Every nonterminal child names an item that exists.
pub open spec fn refs_present(g: Seq<RuleView>, sets: Seq<Seq<ItemView>>) -> bool {
    forall|k: int, j: int, i: int, m: int|
        0 <= k < sets.len() && 0 <= j < sets[k].len() && 0 <= i < sets[k][j].children.len() && 0
            <= m < sets[k][j].children[i].len() && (g[sets[k][j].rule_index as int].rhs[i] is NonTerm)
            ==> id_present(sets, (#[trigger] sets[k][j].children[i][m]).1 as nat)
}

/// The number of items in all sets.
pub open spec fn total(sets: Seq<Seq<ItemView>>) -> nat
    decreases sets.len(),
{
    if sets.len() == 0 {
        0
    } else {
        total(sets.drop_last()) + sets.last().len()
    }
}

/// The invariant of the item sets of a recogniser of `n` tokens whose id counter is `c`.
pub open spec fn sets_inv(g: Seq<RuleView>, n: nat, sets: Seq<Seq<ItemView>>, c: nat) -> bool {
    &&& sets.len() == n + 1
    &&& grammar_wf(g)
    &&& (n + 1) * key_bound(g, n) < usize::MAX
    &&& forall|k: int, j: int|
        0 <= k < sets.len() && 0 <= j < sets[k].len() ==> item_ok(g, n, #[trigger] sets[k][j], k as nat)
    &&& forall|k: int| 0 <= k < sets.len() ==> keys_distinct(#[trigger] sets[k])
    &&& forall|k: int, j: int| 0 <= k < sets.len() && 0 <= j < sets[k].len() ==> (#[trigger] sets[k][j]).id < c
    &&& c == total(sets)
    &&& refs_present(g, sets)
}

pub proof fn lemma_total_zero_inv(g: Seq<RuleView>, n: nat, sets: Seq<Seq<ItemView>>, c: nat)
    requires
        sets_inv(g, n, sets, c),
        c == 0,
    ensures
        forall|k: int| 0 <= k < sets.len() ==> (#[trigger] sets[k]).len() == 0,
{
    assert forall|k: int| 0 <= k < sets.len() implies (#[trigger] sets[k]).len() == 0 by {
        if sets[k].len() > 0 {
            assert(sets[k][0].id < c);
        }
    }
}

/// `s2` holds `s1`'s items in the same places, and maybe more after them.
pub open spec fn extends(s1: Seq<Seq<ItemView>>, s2: Seq<Seq<ItemView>>) -> bool {
    &&& s2.len() == s1.len()
    &&& forall|k: int| 0 <= k < s1.len() ==> (#[trigger] s1[k]).len() <= s2[k].len()
    &&& forall|k: int, j: int| 0 <= k < s1.len() && 0 <= j < s1[k].len() ==> #[trigger] s2[k][j] == s1[k][j]
}

pub proof fn lemma_extends_refl(s: Seq<Seq<ItemView>>)
    ensures
        extends(s, s),
{
}

pub proof fn lemma_extends_trans(s1: Seq<Seq<ItemView>>, s2: Seq<Seq<ItemView>>, s3: Seq<Seq<ItemView>>)
    requires
        extends(s1, s2),
        extends(s2, s3),
    ensures
        extends(s1, s3),
{
    assert forall|k: int, j: int| 0 <= k < s1.len() && 0 <= j < s1[k].len() implies #[trigger] s3[k][j] == s1[k][j] by {
        assert(s2[k][j] == s1[k][j]);
    }
}

pub proof fn lemma_present_mono(s1: Seq<Seq<ItemView>>, s2: Seq<Seq<ItemView>>, id: nat)
    requires
        extends(s1, s2),
        id_present(s1, id),
    ensures
        id_present(s2, id),
{
    let (k, j) = choose|k: int, j: int| 0 <= k < s1.len() && 0 <= j < s1[k].len() && (#[trigger] s1[k][j]).id == id;
    assert(s2[k][j] == s1[k][j]);
}

pub proof fn lemma_total_push(sets: Seq<Seq<ItemView>>, k: int, x: ItemView)
    requires
        0 <= k < sets.len(),
    ensures
        total(sets.update(k, sets[k].push(x))) == total(sets) + 1,
    decreases sets.len(),
{
    let s2 = sets.update(k, sets[k].push(x));
    if k == sets.len() - 1 {
        assert(s2.drop_last() =~= sets.drop_last());
    } else {
        lemma_total_push(sets.drop_last(), k, x);
        assert(s2.drop_last() =~= sets.drop_last().update(k, sets[k].push(x)));
    }
}

pub proof fn lemma_total_le(sets: Seq<Seq<ItemView>>, b: nat)
    requires
        forall|k: int| 0 <= k < sets.len() ==> (#[trigger] sets[k]).len() <= b,
    ensures
        total(sets) <= sets.len() * b,
    decreases sets.len(),
{
    if sets.len() > 0 {
        lemma_total_le(sets.drop_last(), b);
        assert(total(sets) <= sets.len() * b) by (nonlinear_arith)
            requires
                total(sets) == total(sets.drop_last()) + sets.last().len(),
                total(sets.drop_last()) <= (sets.len() - 1) * b,
                sets.last().len() <= b,
        ;
    }
}

/// No set holds more items than there are keys.
pub proof fn lemma_set_bound(g: Seq<RuleView>, n: nat, sets: Seq<Seq<ItemView>>, c: nat, k: int)
    requires
        sets_inv(g, n, sets, c),
        0 <= k < sets.len(),
    ensures
        sets[k].len() <= key_bound(g, n),
{
    lemma_max_len(g);
    let set = sets[k];
    assert forall|j: int| 0 <= j < set.len() implies (#[trigger] set[j]).rule_index < g.len()
        && set[j].matched < max_len(g) + 1 && set[j].start < n + 1 by {
        assert(item_ok(g, n, sets[k][j], k as nat));
        assert(g[set[j].rule_index as int].length <= max_len(g));
    }
    assert(keys_distinct(sets[k]));
    lemma_set_size(set, g.len(), max_len(g) + 1, n + 1);
}

/// The id counter has room for one more item.
pub proof fn lemma_counter_room(g: Seq<RuleView>, n: nat, sets: Seq<Seq<ItemView>>, c: nat)
    requires
        sets_inv(g, n, sets, c),
    ensures
        c < usize::MAX,
{
    assert forall|k: int| 0 <= k < sets.len() implies (#[trigger] sets[k]).len() <= key_bound(g, n) by {
        lemma_set_bound(g, n, sets, c, k);
    }
    lemma_total_le(sets, key_bound(g, n));
}

/// Adding a new item of a new key, with the next id and children that exist, keeps the invariant.
pub proof fn lemma_inv_push(g: Seq<RuleView>, n: nat, sets: Seq<Seq<ItemView>>, c: nat, k: int, x: ItemView)
    requires
        sets_inv(g, n, sets, c),
        0 <= k < sets.len(),
        !has_key(sets[k], key(x)),
        item_ok(g, n, x, k as nat),
        x.id == c,
        forall|i: int, m: int|
            0 <= i < x.children.len() && 0 <= m < x.children[i].len() && (g[x.rule_index as int].rhs[i] is NonTerm)
                ==> id_present(sets, (#[trigger] x.children[i][m]).1 as nat),
    ensures
        sets_inv(g, n, sets.update(k, sets[k].push(x)), c + 1),
        extends(sets, sets.update(k, sets[k].push(x))),
{
    let s2 = sets.update(k, sets[k].push(x));
    lemma_total_push(sets, k, x);
    assert(extends(sets, s2));
    assert forall|k2: int, j: int| 0 <= k2 < s2.len() && 0 <= j < s2[k2].len() implies item_ok(g, n, #[trigger] s2[k2][j], k2 as nat) by {
        if k2 != k || j < sets[k].len() {
            assert(s2[k2][j] == sets[k2][j]);
        }
    }
    assert forall|k2: int| 0 <= k2 < s2.len() implies keys_distinct(#[trigger] s2[k2]) by {
        if k2 == k {
            assert forall|a: int, b: int| 0 <= a < s2[k].len() && 0 <= b < s2[k].len() && a != b implies key(#[trigger] s2[k][a]) != key(#[trigger] s2[k][b]) by {
                if a < sets[k].len() && b < sets[k].len() {
                    assert(keys_distinct(sets[k]));
                } else if a < sets[k].len() {
                    assert(s2[k][a] == sets[k][a]);
                } else {
                    assert(s2[k][b] == sets[k][b]);
                }
            }
        } else {
            assert(s2[k2] == sets[k2]);
        }
    }
    assert forall|k2: int, j: int| 0 <= k2 < s2.len() && 0 <= j < s2[k2].len() implies (#[trigger] s2[k2][j]).id < c + 1 by {
        if k2 != k || j < sets[k].len() {
            assert(s2[k2][j] == sets[k2][j]);
        }
    }
    assert forall|k2: int, j: int, i: int, m: int|
        0 <= k2 < s2.len() && 0 <= j < s2[k2].len() && 0 <= i < s2[k2][j].children.len() && 0
            <= m < s2[k2][j].children[i].len() && (g[s2[k2][j].rule_index as int].rhs[i] is NonTerm)
            implies id_present(s2, (#[trigger] s2[k2][j].children[i][m]).1 as nat) by {
        if k2 != k || j < sets[k].len() {
            assert(s2[k2][j] == sets[k2][j]);
            lemma_present_mono(sets, s2, s2[k2][j].children[i][m].1 as nat);
        } else {
            assert(s2[k2][j] == x);
            lemma_present_mono(sets, s2, x.children[i][m].1 as nat);
        }
    }
}

} // verus!
