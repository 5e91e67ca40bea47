//! Earley items and the sets that hold them.
use vstd::prelude::*;
use crate::earley::grammar::{RuleView, Symbol};

verus! {

/// A dotted rule `rule_index` whose first `matched` symbols were recognised from
/// token `start` on. `children[i]` records how the `i`-th symbol was matched:
/// pairs of the token index and, for a nonterminal, the id of the completed item.
#[derive(Debug)]
pub struct EarleyItem {
    pub id: usize,
    pub rule_index: usize,
    pub matched: usize,
    pub remains: usize,
    pub start: usize,
    pub children: Vec<Vec<(usize, usize)>>,
}

#[verifier::ext_equal]
pub struct ItemView {
    pub id: nat,
    pub rule_index: nat,
    pub matched: nat,
    pub remains: nat,
    pub start: nat,
    pub children: Seq<Seq<(usize, usize)>>,
}

impl View for EarleyItem {
    type V = ItemView;

    open spec fn view(&self) -> ItemView {
        ItemView {
            id: self.id as nat,
            rule_index: self.rule_index as nat,
            matched: self.matched as nat,
            remains: self.remains as nat,
            start: self.start as nat,
            children: self.children@.map_values(|c: Vec<(usize, usize)>| c@),
        }
    }
}

/// Items are told apart by their rule, start and dot, as `==` on them does.
pub type Key = (nat, nat, nat);

pub open spec fn key(it: ItemView) -> Key {
    (it.rule_index, it.start, it.matched)
}

pub open spec fn has_key(set: Seq<ItemView>, k: Key) -> bool {
    exists|j: int| 0 <= j < set.len() && key(#[trigger] set[j]) == k
}

pub open spec fn keys_distinct(set: Seq<ItemView>) -> bool {
    forall|a: int, b: int|
        0 <= a < set.len() && 0 <= b < set.len() && a != b ==> key(#[trigger] set[a]) != key(
            #[trigger] set[b],
        )
}

/// The symbol after the dot, if any.
pub open spec fn next_symbol_of(g: Seq<RuleView>, it: ItemView) -> Option<Symbol> {
    if it.matched < g[it.rule_index as int].rhs.len() {
        Some(g[it.rule_index as int].rhs[it.matched as int])
    } else {
        None
    }
}

/// The item with the dot moved over one more symbol, matched as `child`.
pub open spec fn advanced(it: ItemView, id: nat, child: (usize, usize)) -> ItemView {
    ItemView {
        id,
        rule_index: it.rule_index,
        matched: it.matched + 1,
        remains: (it.remains - 1) as nat,
        start: it.start,
        children: it.children.update(it.matched as int, it.children[it.matched as int].push(child)),
    }
}

/// A freshly predicted item for rule `ri` at token `index`.
pub open spec fn predicted_item(g: Seq<RuleView>, ri: nat, index: nat, id: nat) -> ItemView {
    ItemView {
        id,
        rule_index: ri,
        matched: 0,
        remains: g[ri as int].length,
        start: index,
        children: Seq::new(g[ri as int].length, |i: int| Seq::<(usize, usize)>::empty()),
    }
}

/// A set of items, without two of the same key.
#[derive(Debug)]
pub struct ItemSet {
    pub items: Vec<EarleyItem>,
}

impl View for ItemSet {
    type V = Seq<ItemView>;

    open spec fn view(&self) -> Seq<ItemView> {
        self.items@.map_values(|it: EarleyItem| it@)
    }
}

impl PartialEq for EarleyItem {
    fn eq(&self, other: &Self) -> (r: bool) {
        self.rule_index == other.rule_index && self.start == other.start && self.matched
            == other.matched
    }
}

impl vstd::std_specs::cmp::PartialEqSpecImpl for EarleyItem {
    open spec fn obeys_eq_spec() -> bool {
        true
    }

    open spec fn eq_spec(&self, other: &EarleyItem) -> bool {
        self.rule_index == other.rule_index && self.start == other.start && self.matched
            == other.matched
    }
}

impl Eq for EarleyItem {

}

pub fn copy_pairs(v: &Vec<(usize, usize)>) -> (r: Vec<(usize, usize)>)
    ensures
        r@ == v@,
{
    let mut r: Vec<(usize, usize)> = Vec::new();
    let mut i: usize = 0;
    while i < v.len()
        invariant
            i <= v.len(),
            r@ == v@.take(i as int),
        decreases v.len() - i,
    {
        r.push(v[i]);
        i = i + 1;
    }
    assert(v@.take(v.len() as int) == v@);
    r
}

pub fn copy_children(c: &Vec<Vec<(usize, usize)>>) -> (r: Vec<Vec<(usize, usize)>>)
    ensures
        r@.map_values(|x: Vec<(usize, usize)>| x@) == c@.map_values(|x: Vec<(usize, usize)>| x@),
{
    let mut r: Vec<Vec<(usize, usize)>> = Vec::new();
    let mut i: usize = 0;
    while i < c.len()
        invariant
            i <= c.len(),
            r@.len() == i,
            forall|j: int| 0 <= j < i ==> (#[trigger] r@[j])@ == c@[j]@,
        decreases c.len() - i,
    {
        r.push(copy_pairs(&c[i]));
        i = i + 1;
    }
    assert(r@.map_values(|x: Vec<(usize, usize)>| x@) =~= c@.map_values(
        |x: Vec<(usize, usize)>| x@,
    ));
    r
}

pub fn empty_children(n: usize) -> (r: Vec<Vec<(usize, usize)>>)
    ensures
        r@.map_values(|x: Vec<(usize, usize)>| x@) == Seq::new(
            n as nat,
            |i: int| Seq::<(usize, usize)>::empty(),
        ),
{
    let mut r: Vec<Vec<(usize, usize)>> = Vec::new();
    let mut i: usize = 0;
    while i < n
        invariant
            i <= n,
            r@.len() == i,
            forall|j: int| 0 <= j < i ==> (#[trigger] r@[j])@ == Seq::<(usize, usize)>::empty(),
        decreases n - i,
    {
        r.push(Vec::new());
        i = i + 1;
    }
    assert(r@.map_values(|x: Vec<(usize, usize)>| x@) =~= Seq::new(
        n as nat,
        |i: int| Seq::<(usize, usize)>::empty(),
    ));
    r
}

impl EarleyItem {
    /// A copy with the same fields.
    pub fn duplicate(&self) -> (r: EarleyItem)
        ensures
            r@ == self@,
    {
        EarleyItem {
            id: self.id,
            rule_index: self.rule_index,
            matched: self.matched,
            remains: self.remains,
            start: self.start,
            children: copy_children(&self.children),
        }
    }
}

impl ItemSet {
    pub fn new() -> (s: ItemSet)
        ensures
            s@ == Seq::<ItemView>::empty(),
    {
        ItemSet { items: Vec::new() }
    }

    pub fn len(&self) -> (n: usize)
        ensures
            n == self@.len(),
    {
        self.items.len()
    }

    pub fn contains_key_of(&self, it: &EarleyItem) -> (b: bool)
        ensures
            b == has_key(self@, key(it@)),
    {
        let mut j: usize = 0;
        while j < self.items.len()
            invariant
                j <= self.items.len(),
                forall|i: int| 0 <= i < j ==> key(#[trigger] self@[i]) != key(it@),
            decreases self.items.len() - j,
        {
            if self.items[j] == *it {
                assert(key(self@[j as int]) == key(it@));
                return true;
            }
            j = j + 1;
        }
        false
    }

    /// Adds `it` unless an item of the same key is there; says whether it was added.
    pub fn insert(&mut self, it: EarleyItem) -> (added: bool)
        ensures
            added == !has_key(old(self)@, key(it@)),
            added ==> final(self)@ == old(self)@.push(it@),
            !added ==> final(self)@ == old(self)@,
    {
        if self.contains_key_of(&it) {
            false
        } else {
            let ghost before = self@;
            self.items.push(it);
            assert(self@ =~= before.push(it@));
            true
        }
    }

    /// A copy of the items, in order.
    pub fn snapshot(&self) -> (v: Vec<EarleyItem>)
        ensures
            v@.map_values(|it: EarleyItem| it@) == self@,
    {
        let mut v: Vec<EarleyItem> = Vec::new();
        let mut j: usize = 0;
        while j < self.items.len()
            invariant
                j <= self.items.len(),
                v@.len() == j,
                forall|i: int| 0 <= i < j ==> (#[trigger] v@[i])@ == self@[i],
            decreases self.items.len() - j,
        {
            v.push(self.items[j].duplicate());
            j = j + 1;
        }
        assert(v@.map_values(|it: EarleyItem| it@) =~= self@);
        v
    }
}

} // verus!
