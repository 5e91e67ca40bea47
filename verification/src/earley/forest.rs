//! Parse trees recorded by the recogniser, and their expressions.
use vstd::prelude::*;
use std::collections::HashMap;
use crate::token::{Token, Expr};
use crate::earley::grammar::{RuleView, NonTerm, Symbol};
use crate::earley::item::{EarleyItem, ItemView};
use crate::earley::state::child_ok;
use crate::earley::recogniser::{Recogniser, in_sets};

verus! {

/// A parse tree: a nonterminal with its subtrees, or a token.
#[derive(Debug)]
pub enum Node<N> {
    NonTerm(NonTerm, Vec<Node<N>>),
    Terminal(Token<N>),
}

/// A parse tree as a mathematical value.
pub enum NodeView<N> {
    NonTerm(NonTerm, Seq<NodeView<N>>),
    Terminal(Token<N>),
}

pub open spec fn node_view<N>(n: Node<N>) -> NodeView<N>
    decreases n,
{
    match n {
        Node::NonTerm(a, kids) => NodeView::NonTerm(
            a,
            Seq::new(kids@.len(), |i: int| if 0 <= i < kids@.len() { node_view(kids@[i]) } else { NodeView::Terminal(Token::EOF) }),
        ),
        Node::Terminal(t) => NodeView::Terminal(t),
    }
}

pub open spec fn views<N>(v: Seq<Node<N>>) -> Seq<NodeView<N>> {
    Seq::new(v.len(), |i: int| node_view(v[i]))
}

proof fn lemma_node_view_nonterm<N>(a: NonTerm, kids: Vec<Node<N>>)
    ensures
        node_view(Node::NonTerm(a, kids)) == NodeView::NonTerm(a, views(kids@)),
{
    let v = node_view(Node::NonTerm(a, kids));
    match v {
        NodeView::NonTerm(b, s) => {
            assert(s.len() == kids@.len());
            assert forall|i: int| 0 <= i < s.len() implies s[i] == views(kids@)[i] by {}
            assert(s =~= views(kids@));
        },
        NodeView::Terminal(_) => {},
    }
}

/// Items by id, as the tree builder reads them: every item sits under its own id,
/// its children fit its rule, and every nonterminal child is an older item of the map.
pub open spec fn tree_map_ok(g: Seq<RuleView>, n: nat, m: Map<usize, EarleyItem>) -> bool {
    forall|id: usize| #[trigger] m.contains_key(id) ==> {
        let it = m[id]@;
        &&& it.id == id
        &&& it.rule_index < g.len()
        &&& it.children.len() == g[it.rule_index as int].rhs.len()
        &&& forall|i: int, k: int|
            0 <= i < it.children.len() && 0 <= k < it.children[i].len() ==> {
                &&& child_ok(g[it.rule_index as int].rhs[i], #[trigger] it.children[i][k], it.id, n)
                &&& (g[it.rule_index as int].rhs[i] is NonTerm ==> m.contains_key(it.children[i][k].1))
            }
    }
}

/// The tree of item `id`: its rule's left-hand side over the first recorded match
/// of each symbol of its right-hand side that has one.
pub open spec fn tree_of<N>(g: Seq<RuleView>, toks: Seq<Token<N>>, m: Map<usize, EarleyItem>, id: usize) -> NodeView<N>
    decreases id, 1int, 0int,
{
    NodeView::NonTerm(g[m[id]@.rule_index as int].lhs, kid_trees(g, toks, m, id, 0))
}

pub open spec fn kid_trees<N>(g: Seq<RuleView>, toks: Seq<Token<N>>, m: Map<usize, EarleyItem>, id: usize, i: nat) -> Seq<NodeView<N>>
    decreases id, 0int, m[id]@.children.len() - i,
{
    let it = m[id]@;
    if i >= it.children.len() {
        Seq::empty()
    } else {
        let rest = kid_trees(g, toks, m, id, i + 1);
        if it.children[i as int].len() > 0 {
            let c = it.children[i as int][0];
            match g[it.rule_index as int].rhs[i as int] {
                Symbol::Terminal(_) => seq![NodeView::Terminal(toks[c.0 as int])] + rest,
                Symbol::NonTerm(_) => if c.1 < id {
                    seq![tree_of(g, toks, m, c.1)] + rest
                } else {
                    rest
                },
            }
        } else {
            rest
        }
    }
}

/// `p` extended by each element of `row` in turn.
pub open spec fn extend_each<A>(p: Seq<A>, row: Seq<A>) -> Seq<Seq<A>> {
    row.map_values(|x: A| p.push(x))
}

pub open spec fn extender<A>(row: Seq<A>) -> spec_fn(Seq<A>) -> Seq<Seq<A>> {
    |p: Seq<A>| extend_each(p, row)
}

/// Every combination that takes one element from each row, in order: each
/// combination of the rows before the last, extended by each element of the last.
pub open spec fn product<A>(rows: Seq<Seq<A>>) -> Seq<Seq<A>>
    decreases rows.len(),
{
    if rows.len() == 0 {
        seq![Seq::empty()]
    } else {
        product(rows.drop_last()).flat_map(extender(rows.last()))
    }
}

/// Trees with root `lhs` over each sequence of subtrees.
pub open spec fn rooted<N>(lhs: NonTerm, combos: Seq<Seq<NodeView<N>>>) -> Seq<NodeView<N>> {
    combos.map_values(|kids: Seq<NodeView<N>>| NodeView::NonTerm(lhs, kids))
}

pub open spec fn rows_view<N>(rows: Seq<Vec<Node<N>>>) -> Seq<Seq<NodeView<N>>> {
    Seq::new(rows.len(), |i: int| views(rows[i]@))
}

/// Every tree of item `id`: its rule's left-hand side over each combination of
/// the alternatives recorded for the symbols of its right-hand side.
pub open spec fn trees_of<N>(g: Seq<RuleView>, toks: Seq<Token<N>>, m: Map<usize, EarleyItem>, id: usize) -> Seq<NodeView<N>>
    decreases id, 2int, 0int,
{
    rooted(g[m[id]@.rule_index as int].lhs, product(alt_rows(g, toks, m, id, m[id]@.children.len())))
}

/// The alternatives of the first `j` symbols of item `id`.
pub open spec fn alt_rows<N>(g: Seq<RuleView>, toks: Seq<Token<N>>, m: Map<usize, EarleyItem>, id: usize, j: nat) -> Seq<Seq<NodeView<N>>>
    decreases id, 1int, j,
{
    if j == 0 {
        Seq::empty()
    } else {
        alt_rows(g, toks, m, id, (j - 1) as nat).push(
            alts(g, toks, m, id, (j - 1) as nat, m[id]@.children[j - 1].len()),
        )
    }
}

/// The alternatives for symbol `i` of item `id` from its first `k` recorded matches:
/// the token for a terminal, every tree of the completed item for a nonterminal.
pub open spec fn alts<N>(g: Seq<RuleView>, toks: Seq<Token<N>>, m: Map<usize, EarleyItem>, id: usize, i: nat, k: nat) -> Seq<NodeView<N>>
    decreases id, 0int, k,
{
    if k == 0 {
        Seq::empty()
    } else {
        let prev = alts(g, toks, m, id, i, (k - 1) as nat);
        let c = m[id]@.children[i as int][k - 1];
        match g[m[id]@.rule_index as int].rhs[i as int] {
            Symbol::Terminal(_) => prev.push(NodeView::Terminal(toks[c.0 as int])),
            Symbol::NonTerm(_) => if c.1 < id {
                prev + trees_of(g, toks, m, c.1)
            } else {
                prev
            },
        }
    }
}

proof fn lemma_product_step<A>(rows: Seq<Seq<A>>, r: int)
    requires
        0 <= r < rows.len(),
    ensures
        product(rows.take(r + 1)) == product(rows.take(r)).flat_map(extender(rows[r])),
{
    assert(rows.take(r + 1).drop_last() =~= rows.take(r));
    assert(rows.take(r + 1).last() == rows[r]);
}

proof fn lemma_views_push<N>(v: Seq<Node<N>>, x: Node<N>)
    ensures
        views(v.push(x)) == views(v).push(node_view(x)),
{
    assert(views(v.push(x)) =~= views(v).push(node_view(x)));
}

proof fn lemma_rows_view_push<N>(v: Seq<Vec<Node<N>>>, x: Vec<Node<N>>)
    ensures
        rows_view(v.push(x)) == rows_view(v).push(views(x@)),
{
    assert(rows_view(v.push(x)) =~= rows_view(v).push(views(x@)));
}

fn copy_node<N: Copy>(n: &Node<N>) -> (c: Node<N>)
    ensures
        node_view(c) == node_view(*n),
    decreases n,
{
    match n {
        Node::Terminal(t) => Node::Terminal(*t),
        Node::NonTerm(a, kids) => {
            let mut v: Vec<Node<N>> = Vec::new();
            let mut i: usize = 0;
            while i < kids.len()
                invariant
                    *n == Node::NonTerm(*a, *kids),
                    i <= kids@.len(),
                    views(v@) == views(kids@).take(i as int),
                decreases kids@.len() - i,
            {
                assert(decreases_to!(*n => (*n)->NonTerm_1));
                assert(decreases_to!(*kids => kids@));
                assert(decreases_to!(kids@ => kids@[i as int]));
                let c = copy_node(&kids[i]);
                proof {
                    lemma_views_push(v@, c);
                }
                v.push(c);
                assert(views(kids@).take(i + 1) =~= views(kids@).take(i as int).push(node_view(kids@[i as int])));
                i = i + 1;
            }
            assert(views(kids@).take(kids@.len() as int) =~= views(kids@));
            proof {
                lemma_node_view_nonterm(*a, v);
                lemma_node_view_nonterm(*a, *kids);
            }
            Node::NonTerm(*a, v)
        },
    }
}

fn copy_nodes<N: Copy>(kids: &Vec<Node<N>>) -> (v: Vec<Node<N>>)
    ensures
        views(v@) == views(kids@),
{
    let mut v: Vec<Node<N>> = Vec::new();
    let mut i: usize = 0;
    while i < kids.len()
        invariant
            i <= kids@.len(),
            views(v@) == views(kids@).take(i as int),
        decreases kids@.len() - i,
    {
        let c = copy_node(&kids[i]);
        proof {
            lemma_views_push(v@, c);
        }
        v.push(c);
        assert(views(kids@).take(i + 1) =~= views(kids@).take(i as int).push(node_view(kids@[i as int])));
        i = i + 1;
    }
    assert(views(kids@).take(kids@.len() as int) =~= views(kids@));
    v
}

/// Builds trees from the recogniser's items.
pub struct Parser;

impl Parser {
    /// All items of all sets, by id.
    pub fn make_map<N>(r: &Recogniser<N>) -> (map: HashMap<usize, EarleyItem>)
        requires
            r.inv(),
        ensures
            tree_map_ok(r.g@, r.token@.len(), map@),
            forall|k: int, j: int|
                0 <= k < r.sets().len() && 0 <= j < r.sets()[k].len() ==> map@.contains_key(
                    #[trigger] r.sets()[k][j].id as usize,
                ),
            forall|id: usize| #[trigger] map@.contains_key(id) ==> in_sets(r.sets(), map@[id]@),
    {
        broadcast use vstd::std_specs::hash::group_hash_axioms;
        let ghost sets = r.sets();
        let ghost g = r.g@;
        let ghost n = r.token@.len();
        let mut map: HashMap<usize, EarleyItem> = HashMap::new();
        let mut k: usize = 0;
        while k < r.s.len()
            invariant
                r.inv(),
                sets == r.sets(),
                k <= sets.len(),
                forall|k2: int, j: int| 0 <= k2 < k && 0 <= j < sets[k2].len() ==> map@.contains_key(#[trigger] sets[k2][j].id as usize),
                forall|id: usize| #[trigger] map@.contains_key(id) ==> in_sets(sets, map@[id]@) && map@[id]@.id == id,
            decreases sets.len() - k,
        {
            let mut j: usize = 0;
            while j < r.s[k].items.len()
                invariant
                    r.inv(),
                    sets == r.sets(),
                    k < sets.len(),
                    j <= sets[k as int].len(),
                    forall|k2: int, j2: int| 0 <= k2 < k && 0 <= j2 < sets[k2].len() ==> map@.contains_key(#[trigger] sets[k2][j2].id as usize),
                    forall|j2: int| 0 <= j2 < j ==> map@.contains_key(#[trigger] sets[k as int][j2].id as usize),
                    forall|id: usize| #[trigger] map@.contains_key(id) ==> in_sets(sets, map@[id]@) && map@[id]@.id == id,
                decreases sets[k as int].len() - j,
            {
                let it = &r.s[k].items[j];
                assert(it@ == sets[k as int][j as int]);
                map.insert(it.id, it.duplicate());
                j = j + 1;
            }
            k = k + 1;
        }
        proof {
            assert forall|id: usize| #[trigger] map@.contains_key(id) implies {
                let it = map@[id]@;
                &&& it.id == id
                &&& it.rule_index < g.len()
                &&& it.children.len() == g[it.rule_index as int].rhs.len()
                &&& forall|i: int, c: int|
                    0 <= i < it.children.len() && 0 <= c < it.children[i].len() ==> {
                        &&& child_ok(g[it.rule_index as int].rhs[i], #[trigger] it.children[i][c], it.id, n)
                        &&& (g[it.rule_index as int].rhs[i] is NonTerm ==> map@.contains_key(it.children[i][c].1))
                    }
            } by {
                let it = map@[id]@;
                let (k2, j2) = choose|k2: int, j2: int| 0 <= k2 < sets.len() && 0 <= j2 < sets[k2].len() && #[trigger] sets[k2][j2] == it;
                assert(crate::earley::state::item_ok(g, n, sets[k2][j2], k2 as nat));
                assert forall|i: int, c: int| 0 <= i < it.children.len() && 0 <= c < it.children[i].len() implies {
                    &&& child_ok(g[it.rule_index as int].rhs[i], #[trigger] it.children[i][c], it.id, n)
                    &&& (g[it.rule_index as int].rhs[i] is NonTerm ==> map@.contains_key(it.children[i][c].1))
                } by {
                    assert(sets[k2][j2].children[i][c] == it.children[i][c]);
                    if g[it.rule_index as int].rhs[i] is NonTerm {
                        let cid = it.children[i][c].1;
                        assert(crate::earley::state::id_present(sets, cid as nat));
                        let (k3, j3) = choose|k3: int, j3: int| 0 <= k3 < sets.len() && 0 <= j3 < sets[k3].len() && (#[trigger] sets[k3][j3]).id == cid as nat;
                        assert(map@.contains_key(sets[k3][j3].id as usize));
                    }
                }
            }
        }
        map
    }

    /// The tree of item `id`, following the first recorded match of each symbol.
    pub fn build_tree_singular<N: Copy>(id: usize, r: &Recogniser<N>, map: &HashMap<usize, EarleyItem>) -> (node: Node<N>)
        requires
            tree_map_ok(r.g@, r.token@.len(), map@),
            map@.contains_key(id),
        ensures
            node_view(node) == tree_of(r.g@, r.token@, map@, id),
        decreases id,
    {
        broadcast use vstd::std_specs::hash::group_hash_axioms;
        let ghost g = r.g@;
        let ghost toks = r.token@;
        let ghost m = map@;
        let item = match map.get(&id) {
            Some(item) => item,
            None => {
                assert(false);
                return Node::Terminal(Token::EOF);
            },
        };
        assert(item@ == m[id]@);
        let rule = &r.g.rules[item.rule_index];
        let mut tree: Vec<Node<N>> = Vec::new();
        let mut i: usize = 0;
        assert(kid_trees(g, toks, m, id, 0) == views(tree@) + kid_trees(g, toks, m, id, 0));
        while i < item.children.len()
            invariant
                tree_map_ok(g, toks.len(), m),
                g == r.g@,
                toks == r.token@,
                m == map@,
                m.contains_key(id),
                item@ == m[id]@,
                rule@ == g[item.rule_index as int],
                i <= item.children@.len(),
                kid_trees(g, toks, m, id, 0) == views(tree@) + kid_trees(g, toks, m, id, i as nat),
            decreases item.children@.len() - i,
        {
            let ghost before = views(tree@);
            if item.children[i].len() > 0 {
                let (index, child_id) = item.children[i][0];
                assert(item@.children[i as int][0] == (index, child_id));
                match rule.rhs[i] {
                    Symbol::Terminal(_) => {
                        tree.push(Node::Terminal(r.token[index]));
                        assert(views(tree@) =~= before + seq![NodeView::Terminal(toks[index as int])]);
                    },
                    Symbol::NonTerm(_) => {
                        let sub = Self::build_tree_singular(child_id, r, map);
                        tree.push(sub);
                        assert(views(tree@) =~= before + seq![tree_of(g, toks, m, child_id)]);
                    },
                }
                assert(views(tree@) + kid_trees(g, toks, m, id, (i + 1) as nat) =~= before + kid_trees(g, toks, m, id, i as nat));
            } else {
                assert(kid_trees(g, toks, m, id, i as nat) == kid_trees(g, toks, m, id, (i + 1) as nat));
            }
            i = i + 1;
        }
        assert(kid_trees(g, toks, m, id, i as nat) =~= Seq::<NodeView<N>>::empty());
        assert(views(tree@) =~= kid_trees(g, toks, m, id, 0));
        let lhs = rule.lhs;
        proof {
            lemma_node_view_nonterm(lhs, tree);
        }
        Node::NonTerm(lhs, tree)
    }

    /// Every tree of item `id`: one for each combination of the matches recorded
    /// for the symbols of its rule.
    pub fn build_trees<N: Copy>(id: usize, r: &Recogniser<N>, map: &HashMap<usize, EarleyItem>) -> (trees: Vec<Node<N>>)
        requires
            tree_map_ok(r.g@, r.token@.len(), map@),
            map@.contains_key(id),
        ensures
            views(trees@) == trees_of(r.g@, r.token@, map@, id),
        decreases id,
    {
        broadcast use vstd::std_specs::hash::group_hash_axioms;
        let ghost g = r.g@;
        let ghost toks = r.token@;
        let ghost m = map@;
        let item = match map.get(&id) {
            Some(item) => item,
            None => {
                assert(false);
                return Vec::new();
            },
        };
        assert(item@ == m[id]@);
        let rule = &r.g.rules[item.rule_index];
        let mut all_trees: Vec<Vec<Node<N>>> = Vec::new();
        let mut i: usize = 0;
        assert(rows_view(all_trees@) =~= alt_rows(g, toks, m, id, 0));
        while i < item.children.len()
            invariant
                tree_map_ok(g, toks.len(), m),
                g == r.g@,
                toks == r.token@,
                m == map@,
                m.contains_key(id),
                item@ == m[id]@,
                rule@ == g[item.rule_index as int],
                i <= item.children@.len(),
                rows_view(all_trees@) == alt_rows(g, toks, m, id, i as nat),
            decreases item.children@.len() - i,
        {
            let mut trees: Vec<Node<N>> = Vec::new();
            let mut k: usize = 0;
            assert(item@.children[i as int] == item.children@[i as int]@);
            while k < item.children[i].len()
                invariant
                    tree_map_ok(g, toks.len(), m),
                    g == r.g@,
                    toks == r.token@,
                    m == map@,
                    m.contains_key(id),
                    item@ == m[id]@,
                    rule@ == g[item.rule_index as int],
                    i < item.children@.len(),
                    item@.children[i as int] == item.children@[i as int]@,
                    k <= item.children@[i as int]@.len(),
                    views(trees@) == alts(g, toks, m, id, i as nat, k as nat),
                decreases item.children@[i as int]@.len() - k,
            {
                let (index, child_id) = item.children[i][k];
                assert(item@.children[i as int][k as int] == (index, child_id));
                match rule.rhs[i] {
                    Symbol::Terminal(_) => {
                        let t = Node::Terminal(r.token[index]);
                        proof {
                            lemma_views_push(trees@, t);
                        }
                        trees.push(t);
                    },
                    Symbol::NonTerm(_) => {
                        let ghost before = trees@;
                        let mut sub = Self::build_trees(child_id, r, map);
                        let ghost subs = sub@;
                        trees.append(&mut sub);
                        assert(views(trees@) =~= views(before) + views(subs));
                    },
                }
                k = k + 1;
            }
            proof {
                lemma_rows_view_push(all_trees@, trees);
            }
            all_trees.push(trees);
            i = i + 1;
        }
        let lhs = rule.lhs;
        Self::cartesian(lhs, &all_trees)
    }

    /// The trees with root `lhs` over every combination of one tree from each row,
    /// the earlier rows varying slowest.
    pub fn cartesian<N: Copy>(lhs: NonTerm, rhs_items: &Vec<Vec<Node<N>>>) -> (trees: Vec<Node<N>>)
        ensures
            views(trees@) == rooted(lhs, product(rows_view(rhs_items@))),
    {
        let ghost rows = rows_view(rhs_items@);
        if rhs_items.len() == 0 {
            let kids: Vec<Node<N>> = Vec::new();
            proof {
                lemma_node_view_nonterm(lhs, kids);
            }
            let t = Node::NonTerm(lhs, kids);
            let mut out: Vec<Node<N>> = Vec::new();
            out.push(t);
            assert(product(rows) == seq![Seq::<NodeView<N>>::empty()]);
            assert(views(kids@) =~= Seq::<NodeView<N>>::empty());
            assert(views(out@) =~= rooted(lhs, product(rows)));
            return out;
        }
        let first = &rhs_items[0];
        let mut results: Vec<Vec<Node<N>>> = Vec::new();
        let mut j: usize = 0;
        while j < first.len()
            invariant
                rows == rows_view(rhs_items@),
                rhs_items@.len() > 0,
                first == rhs_items@[0],
                j <= first@.len(),
                rows_view(results@) == extend_each(Seq::<NodeView<N>>::empty(), rows[0]).take(j as int),
            decreases first@.len() - j,
        {
            let mut one: Vec<Node<N>> = Vec::new();
            let c = copy_node(&first[j]);
            proof {
                lemma_views_push(one@, c);
            }
            one.push(c);
            assert(rows[0] == views(first@));
            assert(views(one@) =~= Seq::<NodeView<N>>::empty().push(rows[0][j as int]));
            proof {
                lemma_rows_view_push(results@, one);
            }
            results.push(one);
            assert(extend_each(Seq::<NodeView<N>>::empty(), rows[0]).take(j + 1) =~= extend_each(Seq::<NodeView<N>>::empty(), rows[0]).take(j as int).push(views(one@)));
            j = j + 1;
        }
        proof {
            assert(extend_each(Seq::<NodeView<N>>::empty(), rows[0]).take(j as int) =~= extend_each(Seq::<NodeView<N>>::empty(), rows[0]));
            lemma_product_step(rows, 0);
            assert(rows.take(0) =~= Seq::<Seq<NodeView<N>>>::empty());
            assert(seq![Seq::<NodeView<N>>::empty()].flat_map(extender(rows[0])) == extender(rows[0])(Seq::<NodeView<N>>::empty())) by {
                seq![Seq::<NodeView<N>>::empty()].lemma_flat_map_singleton(extender(rows[0]));
            }
        }
        let mut r: usize = 1;
        while r < rhs_items.len()
            invariant
                rows == rows_view(rhs_items@),
                1 <= r <= rhs_items@.len(),
                rows_view(results@) == product(rows.take(r as int)),
            decreases rhs_items@.len() - r,
        {
            let row = &rhs_items[r];
            let ghost f = extender(rows[r as int]);
            let ghost rv = rows_view(results@);
            let mut added: Vec<Vec<Node<N>>> = Vec::new();
            let mut p: usize = 0;
            assert(rv.take(0) =~= Seq::<Seq<NodeView<N>>>::empty());
            assert(rows_view(added@) =~= rv.take(0).flat_map(f));
            while p < results.len()
                invariant
                    rows == rows_view(rhs_items@),
                    r < rhs_items@.len(),
                    row == rhs_items@[r as int],
                    f == extender(rows[r as int]),
                    rv == rows_view(results@),
                    p <= results@.len(),
                    rows_view(added@) == rv.take(p as int).flat_map(f),
                decreases results@.len() - p,
            {
                let mut x: usize = 0;
                let ghost before = rows_view(added@);
                assert(rows_view(added@) =~= before + extend_each(rv[p as int], rows[r as int]).take(0));
                while x < row.len()
                    invariant
                        rows == rows_view(rhs_items@),
                        r < rhs_items@.len(),
                        row == rhs_items@[r as int],
                        rv == rows_view(results@),
                        p < results@.len(),
                        x <= row@.len(),
                        rows_view(added@) == before + extend_each(rv[p as int], rows[r as int]).take(x as int),
                    decreases row@.len() - x,
                {
                    let mut partial_clone = copy_nodes(&results[p]);
                    let c = copy_node(&row[x]);
                    proof {
                        lemma_views_push(partial_clone@, c);
                    }
                    partial_clone.push(c);
                    proof {
                        lemma_rows_view_push(added@, partial_clone);
                    }
                    added.push(partial_clone);
                    assert(extend_each(rv[p as int], rows[r as int]).take(x + 1) =~= extend_each(rv[p as int], rows[r as int]).take(x as int).push(views(partial_clone@)));
                    x = x + 1;
                }
                proof {
                    assert(extend_each(rv[p as int], rows[r as int]).take(x as int) =~= extend_each(rv[p as int], rows[r as int]));
                    rv.lemma_flat_map_take_append(f, p as int);
                }
                p = p + 1;
            }
            proof {
                assert(rv.take(p as int) =~= rv);
                lemma_product_step(rows, r as int);
            }
            results = added;
            r = r + 1;
        }
        assert(rows.take(r as int) =~= rows);
        let ghost combos = rows_view(results@);
        let mut out: Vec<Node<N>> = Vec::new();
        let mut q: usize = 0;
        while q < results.len()
            invariant
                combos == rows_view(results@),
                q <= results@.len(),
                views(out@) == rooted(lhs, combos).take(q as int),
            decreases results@.len() - q,
        {
            let kids = copy_nodes(&results[q]);
            proof {
                lemma_node_view_nonterm(lhs, kids);
            }
            let t = Node::NonTerm(lhs, kids);
            proof {
                lemma_views_push(out@, t);
            }
            out.push(t);
            assert(rooted(lhs, combos).take(q + 1) =~= rooted(lhs, combos).take(q as int).push(node_view(t)));
            q = q + 1;
        }
        assert(rooted(lhs, combos).take(q as int) =~= rooted(lhs, combos));
        out
    }
}

/// The ids of the items of `set` for rule `ri`, in order.
pub open spec fn ids_with_rule(set: Seq<ItemView>, ri: nat) -> Seq<usize>
    decreases set.len(),
{
    if set.len() == 0 {
        Seq::empty()
    } else {
        let rest = ids_with_rule(set.drop_last(), ri);
        if set.last().rule_index == ri {
            rest.push(set.last().id as usize)
        } else {
            rest
        }
    }
}

/// The id of the first item for rule `rule_index` in the last item set.
pub fn start_id<N>(r: &Recogniser<N>, rule_index: usize) -> (id: usize)
    requires
        r.s@.len() > 0,
        exists|j: int| 0 <= j < r.sets().last().len() && (#[trigger] r.sets().last()[j]).rule_index == rule_index,
    ensures
        exists|j: int|
            0 <= j < r.sets().last().len() && (#[trigger] r.sets().last()[j]).rule_index == rule_index
                && r.sets().last()[j].id == id && forall|i: int| 0 <= i < j ==> r.sets().last()[i].rule_index != rule_index,
{
    let last = &r.s[r.s.len() - 1];
    assert(last@ == r.sets().last());
    let mut j: usize = 0;
    while j < last.items.len()
        invariant
            j <= last@.len(),
            last@ == r.sets().last(),
            exists|j: int| 0 <= j < last@.len() && (#[trigger] last@[j]).rule_index == rule_index,
            forall|i: int| 0 <= i < j ==> last@[i].rule_index != rule_index,
        decreases last@.len() - j,
    {
        if last.items[j].rule_index == rule_index {
            assert(last@[j as int].rule_index == rule_index);
            return last.items[j].id;
        }
        j = j + 1;
    }
    assert(false);
    0
}

/// The ids of all items for rule `rule_index` in the last item set, in order.
pub fn start_id_vecs<N>(r: &Recogniser<N>, rule_index: usize) -> (ids: Vec<usize>)
    requires
        r.s@.len() > 0,
    ensures
        ids@ == ids_with_rule(r.sets().last(), rule_index as nat),
{
    let last = &r.s[r.s.len() - 1];
    let mut ids: Vec<usize> = Vec::new();
    let mut j: usize = 0;
    while j < last.items.len()
        invariant
            j <= last@.len(),
            last@ == r.sets().last(),
            ids@ == ids_with_rule(last@.take(j as int), rule_index as nat),
        decreases last@.len() - j,
    {
        assert(last@.take(j + 1).drop_last() =~= last@.take(j as int));
        if last.items[j].rule_index == rule_index {
            ids.push(last.items[j].id);
        }
        j = j + 1;
    }
    assert(last@.take(last@.len() as int) =~= last@);
    ids
}

/// The levels of the grammar whose trees are either one subtree or a binary operation.
pub open spec fn is_binary_level(a: NonTerm) -> bool {
    a is Term || a is Factor || a is Pow || a is Comparison || a is Expr
}

/// Trees that `Expr::to_expr` turns into expressions: numbers at the leaves,
/// operators as tokens, parentheses around a convertible tree, and no `A` terminals.
pub open spec fn convertible<N>(n: NodeView<N>) -> bool
    decreases n,
{
    match n {
        NodeView::Terminal(t) => t is Num,
        NodeView::NonTerm(a, kids) => if a is Unary {
            if kids.len() == 2 {
                kids[0] is Terminal && convertible(kids[1])
            } else {
                kids.len() >= 1 && convertible(kids[0])
            }
        } else if is_binary_level(a) {
            if kids.len() == 3 {
                convertible(kids[0]) && kids[1] is Terminal && convertible(kids[2])
            } else {
                kids.len() == 1 && convertible(kids[0])
            }
        } else if kids.len() == 3 {
            convertible(kids[1])
        } else {
            kids.len() >= 1 && convertible(kids[0])
        },
    }
}

/// The expression of a convertible tree.
pub open spec fn expr_of<N>(n: NodeView<N>) -> Expr<N>
    decreases n,
{
    match n {
        NodeView::Terminal(Token::Num(x)) => Expr::Num(x),
        NodeView::Terminal(_) => Expr::Num(arbitrary()),
        NodeView::NonTerm(a, kids) => if kids.len() == 0 {
            Expr::Num(arbitrary())
        } else if a is Unary && kids.len() == 2 {
            Expr::Unary { op: kids[0]->Terminal_0, expr: Box::new(expr_of(kids[1])) }
        } else if is_binary_level(a) && kids.len() == 3 {
            Expr::Binary {
                left: Box::new(expr_of(kids[0])),
                op: kids[1]->Terminal_0,
                right: Box::new(expr_of(kids[2])),
            }
        } else if a is Terminal && kids.len() == 3 {
            expr_of(kids[1])
        } else {
            expr_of(kids[0])
        },
    }
}

/// The tree of `terminal -> ( e )`.
pub open spec fn parenthesised<N>(e: NodeView<N>) -> NodeView<N> {
    NodeView::NonTerm(
        NonTerm::Terminal,
        seq![NodeView::Terminal(Token::LeftPar), e, NodeView::Terminal(Token::RightPar)],
    )
}

/// Parentheses only group: a parenthesised convertible tree is convertible, and
/// its expression is that of the tree inside.
pub proof fn lemma_parentheses_group<N>(e: NodeView<N>)
    requires
        convertible(e),
    ensures
        convertible(parenthesised(e)),
        expr_of(parenthesised(e)) == expr_of(e),
{
    let kids = seq![NodeView::Terminal(Token::LeftPar), e, NodeView::Terminal(Token::RightPar)];
    assert(kids[1] == e);
}

/// A tree's expression keeps every operator of the tree: a number leaf is that
/// number; a unary node is its operator applied to its operand's expression; a
/// three-child node of a binary level is its operator applied to the expressions of
/// its outer children, in order; a node with one child is that child's expression.
pub proof fn lemma_expression_keeps_operators<N>(x: N, op: Token<N>, a: NodeView<N>, b: NodeView<N>, level: NonTerm)
    requires
        convertible(a),
        convertible(b),
    ensures
        convertible(NodeView::<N>::Terminal(Token::Num(x))),
        expr_of(NodeView::<N>::Terminal(Token::Num(x))) == Expr::Num(x),
        convertible(NodeView::NonTerm(NonTerm::Unary, seq![NodeView::Terminal(op), a])),
        expr_of(NodeView::NonTerm(NonTerm::Unary, seq![NodeView::Terminal(op), a]))
            == (Expr::Unary { op, expr: Box::new(expr_of(a)) }),
        ((level is Expr) || (level is Comparison) || (level is Term) || (level is Factor) || (level is Pow)) ==> convertible(NodeView::NonTerm(level, seq![a, NodeView::Terminal(op), b])),
        ((level is Expr) || (level is Comparison) || (level is Term) || (level is Factor) || (level is Pow)) ==> expr_of(NodeView::NonTerm(level, seq![a, NodeView::Terminal(op), b]))
            == (Expr::Binary { left: Box::new(expr_of(a)), op, right: Box::new(expr_of(b)) }),
        convertible(NodeView::NonTerm(level, seq![a])),
        expr_of(NodeView::NonTerm(level, seq![a])) == expr_of(a),
{
    let u = seq![NodeView::Terminal(op), a];
    assert(u[1] == a);
    let t = seq![a, NodeView::Terminal(op), b];
    assert(t[0] == a && t[2] == b);
    let one = seq![a];
    assert(one[0] == a);
}

impl<N: Copy> Node<N> {
    /// Whether `Expr::to_expr` accepts this tree.
    pub fn is_convertible(&self) -> (b: bool)
        ensures
            b == convertible(node_view(*self)),
        decreases self,
    {
        match self {
            Node::Terminal(t) => {
                if let Token::Num(_) = t {
                    true
                } else {
                    false
                }
            },
            Node::NonTerm(a, kids) => {
                proof {
                    lemma_node_view_nonterm(*a, *kids);
                }
                let binary = match a {
                    NonTerm::Term | NonTerm::Factor | NonTerm::Pow | NonTerm::Comparison | NonTerm::Expr => true,
                    _ => false,
                };
                if let NonTerm::Unary = a {
                    if kids.len() == 2 {
                        let first = if let Node::Terminal(_) = &kids[0] { true } else { false };
                        first && kids[1].is_convertible()
                    } else {
                        kids.len() >= 1 && kids[0].is_convertible()
                    }
                } else if binary {
                    if kids.len() == 3 {
                        let middle = if let Node::Terminal(_) = &kids[1] { true } else { false };
                        kids[0].is_convertible() && middle && kids[2].is_convertible()
                    } else {
                        kids.len() == 1 && kids[0].is_convertible()
                    }
                } else if kids.len() == 3 {
                    kids[1].is_convertible()
                } else {
                    kids.len() >= 1 && kids[0].is_convertible()
                }
            },
        }
    }
}

impl<N: Copy> Expr<N> {
    /// The expression of a parse tree: unary and binary operations from the
    /// levels that have them, the inner expression of a parenthesised one, and
    /// single subtrees passed through.
    pub fn to_expr(node: &Node<N>) -> (e: Expr<N>)
        requires
            convertible(node_view(*node)),
        ensures
            e == expr_of(node_view(*node)),
        decreases node,
    {
        match node {
            Node::Terminal(tok) => match tok {
                Token::Num(n) => Expr::Num(*n),
                _ => vstd::pervasive::unreached(),
            },
            Node::NonTerm(lhs, children) => {
                proof {
                    lemma_node_view_nonterm(*lhs, *children);
                }
                match lhs {
                    NonTerm::Unary => {
                        if children.len() == 2 {
                            let op = match &children[0] {
                                Node::Terminal(t) => *t,
                                _ => {
                                    assert(false);
                                    Token::EOF
                                },
                            };
                            let expr = Box::new(Self::to_expr(&children[1]));
                            Expr::Unary { op, expr }
                        } else {
                            Self::to_expr(&children[0])
                        }
                    },
                    NonTerm::Term | NonTerm::Factor | NonTerm::Pow | NonTerm::Comparison | NonTerm::Expr => {
                        if children.len() == 3 {
                            let left = Box::new(Self::to_expr(&children[0]));
                            let op = match &children[1] {
                                Node::Terminal(t) => *t,
                                _ => {
                                    assert(false);
                                    Token::EOF
                                },
                            };
                            let right = Box::new(Self::to_expr(&children[2]));
                            Expr::Binary { left, op, right }
                        } else {
                            Self::to_expr(&children[0])
                        }
                    },
                    NonTerm::Terminal => {
                        if children.len() == 3 {
                            Self::to_expr(&children[1])
                        } else {
                            Self::to_expr(&children[0])
                        }
                    },
                }
            },
        }
    }
}

} // verus!
