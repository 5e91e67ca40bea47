//! The Earley recogniser: one item set per input position, filled by
//! prediction, scanning and completion.
use vstd::prelude::*;
use std::collections::VecDeque;
use crate::token::{Token, Terminal, term_of};
use crate::earley::grammar::{Grammar, RuleView, NonTerm, Symbol, grammar_wf};
use crate::earley::item::{
    EarleyItem, ItemSet, ItemView, key, has_key, next_symbol_of, advanced, predicted_item, empty_children,
    copy_children,
};
use crate::earley::bounds::key_bound;
use crate::earley::grammar::no_empty_rules;
use crate::earley::language::{derives, derivable, item_valid, lemma_accepts_language, lemma_sound_items_valid};
use crate::earley::derivation::{
    in_set, predicted_at, scanned_at, completed_at, justified, sound, lemma_in_set_mono,
    lemma_justified_mono,
};
use crate::earley::state::{
    sets_inv, item_ok, id_present, extends, lemma_inv_push, lemma_counter_room, lemma_extends_refl,
    lemma_extends_trans, lemma_present_mono, lemma_set_bound,
};

verus! {

pub struct Recogniser<'a, N> {
    pub s: Vec<ItemSet>,
    pub g: Grammar,
    pub token: &'a [Token<N>],
    pub counter: usize,
}

pub open spec fn sets_view(s: Seq<ItemSet>) -> Seq<Seq<ItemView>> {
    s.map_values(|st: ItemSet| st@)
}

pub open spec fn items_view(v: Seq<EarleyItem>) -> Seq<ItemView> {
    v.map_values(|it: EarleyItem| it@)
}

/// The items that predicting `nt` at `index` adds to `set`, in rule order, with
/// ids from `id` on: one per rule of `nt` from `from` on whose fresh item's key
/// is not there yet.
pub open spec fn predicted_list(g: Seq<RuleView>, nt: NonTerm, set: Seq<ItemView>, index: nat, id: nat, from: nat) -> Seq<ItemView>
    decreases g.len() - from,
{
    if from >= g.len() {
        Seq::empty()
    } else if g[from as int].lhs == nt && !has_key(set, (from, index, 0nat)) {
        let it = predicted_item(g, from, index, id);
        seq![it] + predicted_list(g, nt, set.push(it), index, id + 1, from + 1)
    } else {
        predicted_list(g, nt, set, index, id, from + 1)
    }
}

/// The items that completing an item `eid` of left-hand side `lhs` at `index` adds
/// to `set`: the advance of each item of `snap` (from `from` on) that waits for `lhs`,
/// unless its key is there already.
pub open spec fn completed_list(g: Seq<RuleView>, snap: Seq<ItemView>, lhs: NonTerm, set: Seq<ItemView>, index: nat, eid: nat, id: nat, from: nat) -> Seq<ItemView>
    decreases snap.len() - from,
{
    if from >= snap.len() {
        Seq::empty()
    } else if next_symbol_of(g, snap[from as int]) == Some(Symbol::NonTerm(lhs)) && !has_key(
        set,
        key(advanced(snap[from as int], id, (index as usize, eid as usize))),
    ) {
        let it = advanced(snap[from as int], id, (index as usize, eid as usize));
        seq![it] + completed_list(g, snap, lhs, set.push(it), index, eid, id + 1, from + 1)
    } else {
        completed_list(g, snap, lhs, set, index, eid, id, from + 1)
    }
}

impl<'a, N> Recogniser<'a, N> {
    pub open spec fn sets(&self) -> Seq<Seq<ItemView>> {
        sets_view(self.s@)
    }

    pub open spec fn inv(&self) -> bool {
        sets_inv(self.g@, self.token@.len(), self.sets(), self.counter as nat)
    }

    /// A recogniser with one empty item set per input position.
    pub fn new(g: Grammar, token: &'a [Token<N>]) -> (r: Recogniser<'a, N>)
        requires
            grammar_wf(g@),
            token@.len() < usize::MAX,
            (token@.len() + 1) * key_bound(g@, token@.len()) < usize::MAX,
        ensures
            r.inv(),
            r.g@ == g@,
            r.token@ == token@,
            r.counter == 0,
            r.sets() == Seq::new(token@.len() + 1, |k: int| Seq::<ItemView>::empty()),
    {
        let mut s: Vec<ItemSet> = Vec::new();
        let mut k: usize = 0;
        while k <= token.len()
            invariant
                k <= token@.len() + 1,
                token@.len() < usize::MAX,
                s@.len() == k,
                forall|j: int| 0 <= j < k ==> (#[trigger] s@[j])@ == Seq::<ItemView>::empty(),
            decreases token@.len() + 1 - k,
        {
            s.push(ItemSet::new());
            k = k + 1;
        }
        let r = Recogniser { s, g, token, counter: 0 };
        assert(r.sets() =~= Seq::new(token@.len() + 1, |k: int| Seq::<ItemView>::empty()));
        assert(crate::earley::state::total(r.sets()) == 0) by {
            lemma_total_zero(r.sets());
        }
        r
    }

    /// Hands out the next id.
    fn counter(&mut self) -> (num: usize)
        requires
            old(self).counter < usize::MAX,
        ensures
            num == old(self).counter,
            final(self).counter == old(self).counter + 1,
            final(self).s@ == old(self).s@,
            final(self).g@ == old(self).g@,
            final(self).token@ == old(self).token@,
    {
        let num = self.counter;
        self.counter = self.counter + 1;
        num
    }

    /// Takes back the id that was handed out last.
    fn counter_revert(&mut self)
        requires
            old(self).counter > 0,
        ensures
            final(self).counter == old(self).counter - 1,
            final(self).s@ == old(self).s@,
            final(self).g@ == old(self).g@,
            final(self).token@ == old(self).token@,
    {
        self.counter = self.counter - 1;
    }

    /// The symbol after the dot of `e`, if any.
    pub fn next_symbol(&self, e: &EarleyItem) -> (r: Option<Symbol>)
        requires
            e.rule_index < self.g@.len(),
        ensures
            r == next_symbol_of(self.g@, e@),
    {
        let rule = &self.g.rules[e.rule_index];
        if e.matched < rule.rhs.len() {
            Some(rule.rhs[e.matched])
        } else {
            None
        }
    }

    /// Adds `it` to set `k` with the next id, or takes the id back when its key is there.
    fn add_item(&mut self, k: usize, it: EarleyItem, queue: &mut VecDeque<EarleyItem>)
        requires
            old(self).counter > 0,
            sets_inv(old(self).g@, old(self).token@.len(), old(self).sets(), (old(self).counter - 1) as nat),
            k < old(self).s@.len(),
            it.id == old(self).counter - 1,
            item_ok(old(self).g@, old(self).token@.len(), it@, k as nat),
            forall|i: int, m: int|
                0 <= i < it@.children.len() && 0 <= m < it@.children[i].len() && (old(self).g@[it.rule_index as int].rhs[i] is NonTerm)
                    ==> id_present(old(self).sets(), (#[trigger] it@.children[i][m]).1 as nat),
        ensures
            final(self).inv(),
            final(self).g@ == old(self).g@,
            final(self).token@ == old(self).token@,
            !has_key(old(self).sets()[k as int], key(it@)) ==> final(self).sets() == old(self).sets().update(
                k as int,
                old(self).sets()[k as int].push(it@),
            ) && items_view(final(queue)@) == items_view(old(queue)@).push(it@)
                && final(self).counter == old(self).counter,
            has_key(old(self).sets()[k as int], key(it@)) ==> final(self).sets() == old(self).sets()
                && final(queue)@ == old(queue)@ && final(self).counter == old(self).counter - 1,
            extends(old(self).sets(), final(self).sets()),
    {
        let ghost s0 = self.sets();
        proof {
            lemma_extends_refl(s0);
        }
        let copy = it.duplicate();
        if self.s[k].insert(copy) {
            proof {
                assert(self.sets() =~= s0.update(k as int, s0[k as int].push(it@)));
                lemma_inv_push(self.g@, self.token@.len(), s0, (self.counter - 1) as nat, k as int, it@);
            }
            let ghost q0 = items_view(queue@);
            queue.push_back(it);
            assert(items_view(queue@) =~= q0.push(it@));
        } else {
            assert(self.sets() =~= s0);
            self.counter_revert();
        }
    }

    /// Adds the items that predict `s` at `index`, and queues them.
    pub fn predicts(&mut self, s: &NonTerm, index: usize, queue: &mut VecDeque<EarleyItem>)
        requires
            old(self).inv(),
            index < old(self).s@.len(),
        ensures
            final(self).inv(),
            final(self).g@ == old(self).g@,
            final(self).token@ == old(self).token@,
            ({
                let added = predicted_list(old(self).g@, *s, old(self).sets()[index as int], index as nat, old(self).counter as nat, 0);
                &&& final(self).sets() == old(self).sets().update(index as int, old(self).sets()[index as int] + added)
                &&& items_view(final(queue)@) == items_view(old(queue)@) + added
                &&& final(self).counter == old(self).counter + added.len()
            }),
            extends(old(self).sets(), final(self).sets()),
    {
        let ghost s0 = self.sets();
        let ghost q0 = items_view(queue@);
        let ghost c0 = self.counter as nat;
        let ghost target = predicted_list(self.g@, *s, s0[index as int], index as nat, c0, 0);
        let ghost mut done: Seq<ItemView> = Seq::empty();
        let mut i: usize = 0;
        proof {
            lemma_extends_refl(s0);
            assert(s0 =~= s0.update(index as int, s0[index as int] + done));
        }
        while i < self.g.rules.len()
            invariant
                self.inv(),
                self.g@ == old(self).g@,
                self.token@ == old(self).token@,
                s0 == old(self).sets(),
                q0 == items_view(old(queue)@),
                c0 == old(self).counter,
                index < self.s@.len(),
                i <= self.g@.len(),
                self.sets() == s0.update(index as int, s0[index as int] + done),
                items_view(queue@) == q0 + done,
                self.counter == c0 + done.len(),
                target == done + predicted_list(self.g@, *s, s0[index as int] + done, index as nat, self.counter as nat, i as nat),
                target == predicted_list(self.g@, *s, s0[index as int], index as nat, c0, 0),
                extends(s0, self.sets()),
            decreases self.g@.len() - i,
        {
            let ghost before = self.sets();
            if *s == self.g.rules[i].lhs {
                let len = self.g.rules[i].length;
                proof {
                    lemma_counter_room(self.g@, self.token@.len(), self.sets(), self.counter as nat);
                }
                let id = self.counter();
                let e = EarleyItem {
                    id,
                    rule_index: i,
                    matched: 0,
                    remains: len,
                    start: index,
                    children: empty_children(len),
                };
                assert(e@ =~= predicted_item(self.g@, i as nat, index as nat, id as nat));
                let ghost had = has_key(before[index as int], key(e@));
                assert(key(e@) == (i as nat, index as nat, 0nat));
                self.add_item(index, e, queue);
                proof {
                    if !had {
                        done = done + seq![e@];
                        assert(before[index as int].push(e@) =~= s0[index as int] + done);
                    }
                }
            }
            proof {
                lemma_extends_trans(s0, before, self.sets());
            }
            i = i + 1;
        }
        assert(done + Seq::<ItemView>::empty() =~= done);
    }

    pub open spec fn terms(&self) -> Seq<Terminal> {
        self.token@.map_values(|t: Token<N>| term_of(t))
    }

    #[verifier::rlimit(80)]
    #[verifier::spinoff_prover]
    /// Works through set `index` until nothing new arises: every item of it is
    /// predicted from, scanned into the next set, and completed at `index`.
    pub fn handle(&mut self, index: usize)
        requires
            old(self).inv(),
            index < old(self).s@.len(),
        ensures
            final(self).inv(),
            final(self).g@ == old(self).g@,
            final(self).token@ == old(self).token@,
            extends(old(self).sets(), final(self).sets()),
            forall|k: int| 0 <= k < old(self).sets().len() && k != index && k != index + 1
                ==> #[trigger] final(self).sets()[k] == old(self).sets()[k],
            forall|j: int| 0 <= j < final(self).sets()[index as int].len() ==> closed(
                final(self).g@,
                final(self).terms(),
                final(self).sets(),
                index as nat,
                #[trigger] final(self).sets()[index as int][j],
            ),
            sound(old(self).g@, old(self).terms(), old(self).sets()) ==> sound(final(self).g@, final(self).terms(), final(self).sets()),
            forall|j: int| 0 <= j < final(self).sets()[index as int].len() ==> completed_at_start(
                final(self).g@,
                final(self).sets(),
                index as nat,
                #[trigger] final(self).sets()[index as int][j],
            ),
    {
        let ghost s0 = self.sets();
        let ghost g = self.g@;
        let ghost n = self.token@.len();
        let ghost terms = self.terms();
        let ghost bnd = key_bound(g, n) as int;
        let start_items = self.s[index].snapshot();
        let mut queue: VecDeque<EarleyItem> = VecDeque::new();
        let mut i: usize = 0;
        while i < start_items.len()
            invariant
                i <= start_items@.len(),
                index < s0.len(),
                items_view(start_items@) == s0[index as int],
                items_view(queue@) == s0[index as int].take(i as int),
            decreases start_items@.len() - i,
        {
            let ghost q = items_view(queue@);
            queue.push_back(start_items[i].duplicate());
            assert(items_view(queue@) =~= q.push(start_items@[i as int]@));
            assert(s0[index as int].take(i + 1) =~= s0[index as int].take(i as int).push(s0[index as int][i as int]));
            i = i + 1;
        }
        assert(s0[index as int].take(start_items@.len() as int) =~= s0[index as int]);
        let ghost mut done: Seq<ItemView> = Seq::empty();
        proof {
            lemma_extends_refl(s0);
            assert forall|q: int| 0 <= q < queue@.len() implies in_sets(self.sets(), (#[trigger] queue@[q])@) && queue@[q]@.start <= index
                && in_set(self.sets(), index as int, queue@[q]@) by {
                assert(items_view(queue@)[q] == s0[index as int][q]);
                assert(item_ok(g, n, s0[index as int][q], index as nat));
                assert(self.sets()[index as int][q] == queue@[q]@);
            }
            assert forall|j: int| 0 <= j < self.sets()[index as int].len() implies done.contains(#[trigger] self.sets()[index as int][j])
                || items_view(queue@).contains(self.sets()[index as int][j]) by {
                assert(items_view(queue@)[j] == self.sets()[index as int][j]);
            }
        }
        while queue.len() > 0
            invariant
                self.inv(),
                self.g@ == g,
                g == old(self).g@,
                self.token@ == old(self).token@,
                n == self.token@.len(),
                terms == self.terms(),
                s0 == old(self).sets(),
                bnd == key_bound(g, n),
                index < s0.len(),
                extends(s0, self.sets()),
                forall|k: int| 0 <= k < s0.len() && k != index && k != index + 1 ==> #[trigger] self.sets()[k] == s0[k],
                forall|q: int| 0 <= q < queue@.len() ==> in_sets(self.sets(), (#[trigger] queue@[q])@) && queue@[q]@.start <= index
                    && in_set(self.sets(), index as int, queue@[q]@),
                sound(g, terms, s0) ==> sound(g, terms, self.sets()),
                forall|q: int| 0 <= q < done.len() ==> in_sets(self.sets(), #[trigger] done[q]) && done[q].start <= index,
                forall|j: int| 0 <= j < self.sets()[index as int].len() ==> done.contains(#[trigger] self.sets()[index as int][j])
                    || items_view(queue@).contains(self.sets()[index as int][j]),
                forall|q: int| 0 <= q < done.len() ==> closed(g, terms, self.sets(), index as nat, #[trigger] done[q]),
                forall|q: int| 0 <= q < done.len() ==> completed_at_start(g, self.sets(), index as nat, #[trigger] done[q]),
            decreases (bnd - self.sets()[index as int].len()) + if index + 1 < s0.len() { bnd - self.sets()[index + 1].len() } else { 0 }, queue@.len(),
        {
            let ghost before = self.sets();
            let ghost qv = items_view(queue@);
            let ghost c_before = self.counter as nat;
            proof {
                lemma_set_bound(g, n, before, c_before, index as int);
                if index + 1 < s0.len() {
                    lemma_set_bound(g, n, before, c_before, index + 1);
                }
            }
            let item = queue.pop_front().unwrap();
            assert(qv[0] == item@);
            assert(items_view(queue@) =~= qv.drop_first());
            let ghost rest = items_view(queue@);
            let ghost x = item@;
            proof {
                lemma_in_sets_facts(g, n, before, c_before, x);
                assert(in_set(before, index as int, x));
            }
            // the set that grows, and what is added to it and to the queue
            let ghost mut grown: int = index as int;
            let ghost mut added: Seq<ItemView> = Seq::empty();
            // what joins the queue: only items of set `index`
            let ghost mut queued: Seq<ItemView> = Seq::empty();
            if item.remains == 0 {
                self.complete(&item, index, &mut queue);
                proof {
                    added = completed_list(g, before[x.start as int], g[x.rule_index as int].lhs, before[index as int], index as nat, x.id, c_before, 0);
                    queued = added;
                    lemma_completed_covers(g, before[x.start as int], g[x.rule_index as int].lhs, before[index as int], index as nat, x.id, c_before, 0);
                    lemma_in_set_mono(before, self.sets(), index as int, x);
                    lemma_completions_justified(g, terms, before, self.sets(), index as int, x, before[index as int], c_before);
                    lemma_completed_fresh(g, before[x.start as int], g[x.rule_index as int].lhs, before[index as int], index as nat, x.id, c_before);
                }
            } else {
                let sym = self.next_symbol(&item);
                match sym {
                    Some(Symbol::NonTerm(a)) => {
                        self.predicts(&a, index, &mut queue);
                        proof {
                            added = predicted_list(g, a, before[index as int], index as nat, c_before, 0);
                            queued = added;
                            lemma_predicted_covers(g, a, before[index as int], index as nat, c_before, 0);
                            lemma_in_set_mono(before, self.sets(), index as int, x);
                            lemma_predictions_justified(g, terms, self.sets(), index as int, x, a, before[index as int], c_before);
                            lemma_predicted_fresh(g, a, before[index as int], index as nat, c_before);
                        }
                    },
                    Some(Symbol::Terminal(t)) => {
                        if index < self.token.len() {
                            // the scanned item waits for its own position: it does not join this queue
                            let mut scanned: VecDeque<EarleyItem> = VecDeque::new();
                            self.scan(&item, &t, index, &mut scanned);
                            proof {
                                grown = index + 1;
                                let adv = advanced(x, c_before, (index, c_before as usize));
                                assert(key(adv) == next_key(x));
                                assert(terms[index as int] == term_of(self.token@[index as int]));
                                if term_of(self.token@[index as int]) == t && !has_key(before[index + 1], key(adv)) {
                                    added = seq![adv];
                                    lemma_in_set_mono(before, self.sets(), index as int, x);
                                    assert(scanned_at(g, terms, self.sets(), index + 1, adv));
                                    assert(justified(g, terms, self.sets(), index + 1, added[0])) by {
                                        reveal(justified);
                                    }
                                    assert(before[index + 1].push(adv) =~= before[index + 1] + added);
                                    assert(key(self.sets()[index + 1][before[index + 1].len() as int]) == next_key(x));
                                } else {
                                    assert(before[index + 1] =~= before[index + 1] + added);
                                }
                                assert(rest =~= rest + queued);
                            }
                        } else {
                            assert(before[index as int] =~= before[index as int] + added);
                            assert(rest =~= rest + queued);
                        }
                    },
                    None => {
                        assert(before[index as int] =~= before[index as int] + added);
                        assert(rest =~= rest + queued);
                    },
                }
            }
            let ghost after = self.sets();
            proof {
                assert(0 <= grown < before.len());
                assert(after == before.update(grown, before[grown] + added));
                assert(items_view(queue@) == rest + queued);
                assert(queued.len() > 0 ==> grown == index && queued == added);
                lemma_set_bound(g, n, after, self.counter as nat, index as int);
                if index + 1 < s0.len() {
                    lemma_set_bound(g, n, after, self.counter as nat, index + 1);
                }
                lemma_extends_trans(s0, before, after);
                if sound(g, terms, s0) {
                    lemma_sound_step(g, terms, before, after, grown, added);
                }
                assert(closed(g, terms, after, index as nat, x));
                // what was recorded before stays recorded
                assert forall|q: int| 0 <= q < done.len() implies closed(g, terms, after, index as nat, #[trigger] done[q]) by {
                    lemma_closed_mono(g, terms, before, after, index as nat, done[q]);
                }
                assert forall|q: int| 0 <= q < done.len() implies in_sets(after, #[trigger] done[q]) by {
                    lemma_in_sets_mono(before, after, done[q]);
                }
                assert forall|t: int| 0 <= t < added.len() implies (#[trigger] added[t]).id >= c_before by {
                    if grown == index + 1 {
                        assert(added[t] == added[0]);
                    }
                }
                assert(after[index as int] == before[index as int] + added || after[index as int] == before[index as int]);
                lemma_done_at_start_step(g, n, before, after, index as nat, added, c_before, done, x);
                // every item of the queue lies in the sets
                assert forall|q: int| 0 <= q < queue@.len() implies in_sets(after, (#[trigger] queue@[q])@) && queue@[q]@.start <= index
                    && in_set(after, index as int, queue@[q]@) by {
                    assert(items_view(queue@)[q] == queue@[q]@);
                    if q < rest.len() {
                        assert(queue@[q]@ == qv[q + 1]);
                        lemma_in_sets_mono(before, after, qv[q + 1]);
                        lemma_in_set_mono(before, after, index as int, qv[q + 1]);
                    } else {
                        let p = before[grown].len() + (q - rest.len());
                        assert(items_view(queue@).len() == queue@.len());
                        assert(q - rest.len() < queued.len());
                        assert((rest + queued)[q] == queued[q - rest.len()]);
                        assert(queue@[q]@ == added[q - rest.len()]);
                        assert(after[grown] == before[grown] + added);
                        assert((before[grown] + added)[p] == added[q - rest.len()]);
                        assert(after[grown][p] == added[q - rest.len()]);
                        assert(item_ok(g, n, after[grown][p], grown as nat));
                    }
                }
                let old_done = done;
                done = done.push(x);
                assert forall|q: int| 0 <= q < done.len() implies closed(g, terms, after, index as nat, #[trigger] done[q]) by {
                    if q < old_done.len() {
                        assert(done[q] == old_done[q]);
                    }
                }
                assert forall|q: int| 0 <= q < done.len() implies completed_at_start(g, after, index as nat, #[trigger] done[q]) by {
                    if q < old_done.len() {
                        assert(done[q] == old_done[q]);
                    }
                }
                assert forall|q: int| 0 <= q < done.len() implies in_sets(after, #[trigger] done[q]) && done[q].start <= index by {
                    if q < old_done.len() {
                        assert(done[q] == old_done[q]);
                    } else {
                        lemma_in_sets_mono(before, after, x);
                    }
                }
                // every item of the two sets is done or queued
                assert forall|j: int| 0 <= j < after[index as int].len() implies done.contains(#[trigger] after[index as int][j])
                    || items_view(queue@).contains(after[index as int][j]) by {
                    if j < before[index as int].len() {
                        assert(after[index as int][j] == before[index as int][j]);
                        if old_done.contains(before[index as int][j]) {
                            let w = choose|w: int| 0 <= w < old_done.len() && old_done[w] == before[index as int][j];
                            assert(done[w] == old_done[w]);
                        } else {
                            let w = choose|w: int| 0 <= w < qv.len() && qv[w] == before[index as int][j];
                            if w == 0 {
                                assert(done[old_done.len() as int] == x);
                            } else {
                                assert(items_view(queue@)[w - 1] == qv[w]);
                            }
                        }
                    } else {
                        assert(grown == index);
                        assert(items_view(queue@)[rest.len() + (j - before[index as int].len())] == after[index as int][j]);
                    }
                }
            }
        }
        proof {
            let fin = self.sets();
            assert forall|j: int| 0 <= j < fin[index as int].len() implies closed(g, terms, fin, index as nat, #[trigger] fin[index as int][j]) by {
                let w = choose|w: int| 0 <= w < done.len() && done[w] == fin[index as int][j];
            }
        }
    }

    /// The completed start item: rule `start_rule` recognised over the whole input.
    pub open spec fn accepts(&self, start_rule: nat) -> bool {
        has_key(self.sets()[self.token@.len() as int], (start_rule, 0nat, self.g@[start_rule as int].length))
    }

    /// A complete item that began at its own position (possible only with a rule
    /// that derives nothing) has advanced every older item of its set that waits
    /// for its left-hand side.
    pub open spec fn completions_at_start(&self) -> bool {
        forall|k: int, j: int|
            0 <= k < self.sets().len() && 0 <= j < self.sets()[k].len() ==> completed_at_start(
                self.g@,
                self.sets(),
                k as nat,
                #[trigger] self.sets()[k][j],
            )
    }

    /// Every item of every set has had its consequences recorded at its position.
    pub open spec fn all_closed(&self) -> bool {
        forall|k: int, j: int|
            0 <= k < self.sets().len() && 0 <= j < self.sets()[k].len() ==> closed(
                self.g@,
                self.terms(),
                self.sets(),
                k as nat,
                #[trigger] self.sets()[k][j],
            )
    }

    /// Runs the recogniser from the item of `start_rule` at the first token;
    /// says whether that rule was recognised over the whole input. Afterwards the
    /// first item is the start item, every item's consequences are recorded
    /// (`all_closed`), a complete item handled where it began has advanced the older
    /// items waiting for it (`completions_at_start`), and every item follows from the
    /// start item (`sound`). An accepted input is derived by the start rule; when no
    /// rule is empty, every input that the start rule derives is accepted, so the
    /// answer is exactly whether the input lies in the language of that rule.
    pub fn recognise(&mut self, start_rule: usize) -> (b: bool)
        requires
            old(self).inv(),
            old(self).counter == 0,
            start_rule < old(self).g@.len(),
        ensures
            final(self).inv(),
            final(self).g@ == old(self).g@,
            final(self).token@ == old(self).token@,
            has_key(final(self).sets()[0], (start_rule as nat, 0nat, 0nat)),
            final(self).sets()[0].len() > 0,
            final(self).sets()[0][0] == predicted_item(final(self).g@, start_rule as nat, 0, 0),
            sound(final(self).g@, final(self).terms(), final(self).sets()),
            final(self).all_closed(),
            final(self).completions_at_start(),
            b == final(self).accepts(start_rule as nat),
            b ==> derivable(
                final(self).g@,
                final(self).g@[start_rule as int].rhs,
                final(self).terms(),
                0,
                final(self).token@.len() as int,
            ),
            forall|h: nat|
                no_empty_rules(final(self).g@) && #[trigger] derives(
                    final(self).g@,
                    final(self).g@[start_rule as int].rhs,
                    final(self).terms(),
                    0,
                    final(self).token@.len() as int,
                    h,
                ) ==> b,
    {
        proof {
            crate::earley::state::lemma_total_zero_inv(self.g@, self.token@.len(), self.sets(), 0);
        }
        let rule_length = self.g.rules[start_rule].length;
        let id = self.counter();
        let mut start = EarleyItem {
            id,
            rule_index: start_rule,
            matched: 0,
            remains: rule_length,
            start: 0,
            children: empty_children(rule_length),
        };
        let mut queue: VecDeque<EarleyItem> = VecDeque::new();
        assert(start@.children =~= Seq::new(rule_length as nat, |i: int| Seq::<(usize, usize)>::empty()));
        let ghost empty = self.sets();
        self.add_item(0, start.duplicate(), &mut queue);
        assert(has_key(self.sets()[0], (start_rule as nat, 0nat, 0nat))) by {
            assert(key(self.sets()[0][0]) == (start_rule as nat, 0nat, 0nat));
        }
        let ghost g = self.g@;
        let ghost terms = self.terms();
        let ghost first = predicted_item(g, start_rule as nat, 0, 0);
        assert(start@ == first);
        assert(self.sets()[0][0] == first);
        assert(sound(g, terms, self.sets())) by {
            reveal(sound);
            reveal(justified);
            assert forall|k: int, j: int| 0 <= k < self.sets().len() && 0 <= j < self.sets()[k].len() implies justified(g, terms, self.sets(), k, #[trigger] self.sets()[k][j]) by {
                if k != 0 {
                    assert(self.sets()[k] == empty[k]);
                }
            }
        }
        let last = self.s.len() - 1;
        let mut i: usize = 0;
        while i <= last
            invariant
                self.inv(),
                self.g@ == g,
                g == old(self).g@,
                self.token@ == old(self).token@,
                terms == self.terms(),
                last + 1 == self.s@.len(),
                last < usize::MAX,
                i <= last + 1,
                rule_length == g[start_rule as int].length,
                start_rule < g.len(),
                has_key(self.sets()[0], (start_rule as nat, 0nat, 0nat)),
                self.sets()[0].len() > 0,
                self.sets()[0][0] == first,
                sound(g, terms, self.sets()),
                forall|k: int, j: int|
                    0 <= k < i && 0 <= j < self.sets()[k].len() ==> closed(g, terms, self.sets(), k as nat, #[trigger] self.sets()[k][j]),
                forall|k: int| i < k < self.sets().len() ==> (#[trigger] self.sets()[k]).len() == 0,
                forall|k: int, j: int|
                    0 <= k < i && 0 <= j < self.sets()[k].len() ==> completed_at_start(g, self.sets(), k as nat, #[trigger] self.sets()[k][j]),
            decreases last + 1 - i,
        {
            let ghost before = self.sets();
            self.handle(i);
            let ghost after = self.sets();
            proof {
                lemma_has_key_prefix(before[0], after[0], (start_rule as nat, 0nat, 0nat));
                assert forall|k: int, j: int|
                    0 <= k < i + 1 && 0 <= j < after[k].len() implies closed(g, terms, after, k as nat, #[trigger] after[k][j]) by {
                    if k < i {
                        assert(after[k] == before[k]);
                        let x = before[k][j];
                        assert(item_ok(g, self.token@.len(), x, k as nat));
                        if next_symbol_of(g, x) is None && x.start < k {
                            assert(after[x.start as int] == before[x.start as int]);
                        }
                        lemma_closed_mono(g, terms, before, after, k as nat, x);
                    }
                }
                assert forall|k: int| i + 1 < k < after.len() implies (#[trigger] after[k]).len() == 0 by {
                    assert(after[k] == before[k]);
                }
                assert forall|k: int, j: int|
                    0 <= k < i + 1 && 0 <= j < after[k].len() implies completed_at_start(g, after, k as nat, #[trigger] after[k][j]) by {
                    if k < i {
                        assert(after[k] == before[k]);
                        assert(completed_at_start(g, before, k as nat, before[k][j]));
                    }
                }
            }
            i = i + 1;
        }
        start.matched = start.remains;
        start.remains = 0;
        let found = self.s[last].contains_key_of(&start);
        proof {
            let n = self.token@.len();
            assert forall|h: nat|
                no_empty_rules(g) && #[trigger] derives(g, g[start_rule as int].rhs, terms, 0, n as int, h) implies found by {
                assert(terms.len() == n);
                lemma_accepts_language(g, terms, self.sets(), self.counter as nat, start_rule as nat, h);
            }
            if found {
                let fin = self.sets();
                let j = choose|j: int| 0 <= j < fin[n as int].len() && key(#[trigger] fin[n as int][j]) == (start_rule as nat, 0nat, rule_length as nat);
                lemma_sound_items_valid(g, terms, fin, self.counter as nat);
                assert(item_valid(g, terms, n as int, fin[n as int][j]));
                let rhs = g[start_rule as int].rhs;
                assert(rhs.subrange(0, rule_length as int) =~= rhs);
            }
        }
        found
    }

    /// Drops all item sets.
    pub fn clean(&mut self)
        ensures
            final(self).s@.len() == 0,
            final(self).g@ == old(self).g@,
            final(self).token@ == old(self).token@,
            final(self).counter == old(self).counter,
    {
        self.s = Vec::new();
    }

    /// Moves the dot of `e` over the terminal at `index` when that token is an `s`,
    /// into the next set.
    pub fn scan(&mut self, e: &EarleyItem, s: &Terminal, index: usize, queue: &mut VecDeque<EarleyItem>)
        requires
            old(self).inv(),
            index < old(self).token@.len(),
            in_sets(old(self).sets(), e@),
            e.start <= index,
            next_symbol_of(old(self).g@, e@) == Some(Symbol::Terminal(*s)),
        ensures
            final(self).inv(),
            final(self).g@ == old(self).g@,
            final(self).token@ == old(self).token@,
            extends(old(self).sets(), final(self).sets()),
            ({
                let c = old(self).counter;
                let adv = advanced(e@, c as nat, (index, c));
                let s0 = old(self).sets();
                if term_of(old(self).token@[index as int]) == *s && !has_key(s0[index + 1], key(adv)) {
                    &&& final(self).sets() == s0.update(index + 1, s0[index + 1].push(adv))
                    &&& items_view(final(queue)@) == items_view(old(queue)@).push(adv)
                    &&& final(self).counter == c + 1
                } else {
                    &&& final(self).sets() == s0
                    &&& final(queue)@ == old(queue)@
                    &&& final(self).counter == c
                }
            }),
    {
        let ghost s0 = self.sets();
        proof {
            lemma_extends_refl(s0);
            lemma_in_sets_facts(self.g@, self.token@.len(), s0, self.counter as nat, e@);
        }
        if self.token[index].to_term() == *s {
            proof {
                lemma_counter_room(self.g@, self.token@.len(), s0, self.counter as nat);
            }
            let id = self.counter();
            let mut children = copy_children(&e.children);
            let m = e.matched;
            children[m].push((index, id));
            let new_e = EarleyItem {
                id,
                rule_index: e.rule_index,
                matched: e.matched + 1,
                remains: e.remains - 1,
                start: e.start,
                children,
            };
            assert(new_e@ =~~= advanced(e@, id as nat, (index, id)));
            proof {
                let g = self.g@;
                let x = new_e@;
                assert forall|i: int, mm: int|
                    0 <= i < x.children.len() && 0 <= mm < x.children[i].len() implies crate::earley::state::child_ok(
                        g[x.rule_index as int].rhs[i],
                        #[trigger] x.children[i][mm],
                        x.id,
                        self.token@.len(),
                    ) by {
                    if i != m || mm < e@.children[i].len() {
                        assert(x.children[i][mm] == e@.children[i][mm]);
                    }
                }
                assert forall|i: int, mm: int|
                    0 <= i < x.children.len() && 0 <= mm < x.children[i].len() && (g[x.rule_index as int].rhs[i] is NonTerm)
                        implies id_present(s0, (#[trigger] x.children[i][mm]).1 as nat) by {
                    assert(x.children[i][mm] == e@.children[i][mm]);
                }
            }
            self.add_item(index + 1, new_e, queue);
        }
    }

    /// Moves, into set `index`, the dot of every item of set `e.start` that waits
    /// for the left-hand side of the complete item `e`.
    pub fn complete(&mut self, e: &EarleyItem, index: usize, queue: &mut VecDeque<EarleyItem>)
        requires
            old(self).inv(),
            index < old(self).s@.len(),
            in_sets(old(self).sets(), e@),
            e.start <= index,
            e.remains == 0,
        ensures
            final(self).inv(),
            final(self).g@ == old(self).g@,
            final(self).token@ == old(self).token@,
            extends(old(self).sets(), final(self).sets()),
            ({
                let s0 = old(self).sets();
                let added = completed_list(old(self).g@, s0[e.start as int], old(self).g@[e.rule_index as int].lhs, s0[index as int], index as nat, e.id as nat, old(self).counter as nat, 0);
                &&& final(self).sets() == s0.update(index as int, s0[index as int] + added)
                &&& items_view(final(queue)@) == items_view(old(queue)@) + added
                &&& final(self).counter == old(self).counter + added.len()
            }),
    {
        let ghost s0 = self.sets();
        let ghost q0 = items_view(queue@);
        let ghost c0 = self.counter as nat;
        proof {
            lemma_in_sets_facts(self.g@, self.token@.len(), s0, self.counter as nat, e@);
            lemma_extends_refl(s0);
        }
        let lhs = self.g.rules[e.rule_index].lhs;
        let hs = self.s[e.start].snapshot();
        let ghost snap = items_view(hs@);
        let ghost target = completed_list(self.g@, snap, lhs, s0[index as int], index as nat, e.id as nat, c0, 0);
        let ghost mut done: Seq<ItemView> = Seq::empty();
        assert(s0 =~= s0.update(index as int, s0[index as int] + done));
        let mut j: usize = 0;
        while j < hs.len()
            invariant
                self.inv(),
                self.g@ == old(self).g@,
                self.token@ == old(self).token@,
                s0 == old(self).sets(),
                q0 == items_view(old(queue)@),
                c0 == old(self).counter,
                snap == items_view(hs@),
                snap == s0[e.start as int],
                sets_inv(self.g@, self.token@.len(), s0, c0),
                e.rule_index < self.g@.len(),
                lhs == self.g@[e.rule_index as int].lhs,
                index < self.s@.len(),
                e.start <= index,
                e.id < c0,
                id_present(s0, e.id as nat),
                j <= hs@.len(),
                self.sets() == s0.update(index as int, s0[index as int] + done),
                items_view(queue@) == q0 + done,
                self.counter == c0 + done.len(),
                target == done + completed_list(self.g@, snap, lhs, s0[index as int] + done, index as nat, e.id as nat, self.counter as nat, j as nat),
                target == completed_list(self.g@, snap, lhs, s0[index as int], index as nat, e.id as nat, c0, 0),
                extends(s0, self.sets()),
            decreases hs@.len() - j,
        {
            let ghost before = self.sets();
            let item = &hs[j];
            assert(item@ == snap[j as int]);
            assert(in_sets(s0, item@)) by {
                assert(s0[e.start as int][j as int] == item@);
            }
            proof {
                lemma_in_sets_facts(self.g@, self.token@.len(), s0, c0, item@);
                lemma_in_sets_mono(s0, before, item@);
            }
            match self.next_symbol(item) {
                Some(Symbol::NonTerm(n)) => {
                    if n == lhs {
                        proof {
                            lemma_counter_room(self.g@, self.token@.len(), self.sets(), self.counter as nat);
                        }
                        let id = self.counter();
                        let mut children = copy_children(&item.children);
                        let m = item.matched;
                        children[m].push((index, e.id));
                        let new_e = EarleyItem {
                            id,
                            rule_index: item.rule_index,
                            matched: item.matched + 1,
                            remains: item.remains - 1,
                            start: item.start,
                            children,
                        };
                        assert(new_e@ =~~= advanced(item@, id as nat, (index, e.id)));
                        proof {
                            let g = self.g@;
                            let x = new_e@;
                            let k0 = e.start as int;
                            assert(item_ok(g, self.token@.len(), s0[k0][j as int], k0 as nat));
                            assert forall|i: int, mm: int|
                                0 <= i < x.children.len() && 0 <= mm < x.children[i].len() implies crate::earley::state::child_ok(
                                    g[x.rule_index as int].rhs[i],
                                    #[trigger] x.children[i][mm],
                                    x.id,
                                    self.token@.len(),
                                ) by {
                                if i != m || mm < item@.children[i].len() {
                                    assert(x.children[i][mm] == item@.children[i][mm]);
                                }
                            }
                            assert forall|i: int, mm: int|
                                0 <= i < x.children.len() && 0 <= mm < x.children[i].len() && (g[x.rule_index as int].rhs[i] is NonTerm)
                                    implies id_present(before, (#[trigger] x.children[i][mm]).1 as nat) by {
                                if i != m || mm < item@.children[i].len() {
                                    assert(x.children[i][mm] == item@.children[i][mm]);
                                    lemma_present_mono(s0, before, x.children[i][mm].1 as nat);
                                } else {
                                    lemma_present_mono(s0, before, e.id as nat);
                                }
                            }
                        }
                        let ghost had = has_key(before[index as int], key(new_e@));
                        self.add_item(index, new_e, queue);
                        proof {
                            if !had {
                                done = done + seq![new_e@];
                                assert(before[index as int].push(new_e@) =~= s0[index as int] + done);
                            }
                        }
                    }
                },
                _ => {},
            }
            proof {
                lemma_extends_trans(s0, before, self.sets());
            }
            j = j + 1;
        }
        assert(done + Seq::<ItemView>::empty() =~= done);
    }
}

/// A complete item `x` handled at the position `k` where it began has advanced
/// every item of set `k` older than itself that waits for its left-hand side.
pub open spec fn completed_at_start(g: Seq<RuleView>, sets: Seq<Seq<ItemView>>, k: nat, x: ItemView) -> bool {
    next_symbol_of(g, x) is None && x.start == k ==> forall|j: int|
        0 <= j < sets[k as int].len() && (#[trigger] sets[k as int][j]).id < x.id && next_symbol_of(g, sets[k as int][j])
            == Some(Symbol::NonTerm(g[x.rule_index as int].lhs)) ==> has_key(sets[k as int], next_key(sets[k as int][j]))
}

/// One step of `handle` keeps `completed_at_start` for the items handled so far,
/// and gives it for the item just handled.
proof fn lemma_done_at_start_step(
    g: Seq<RuleView>,
    n: nat,
    before: Seq<Seq<ItemView>>,
    after: Seq<Seq<ItemView>>,
    k: nat,
    added: Seq<ItemView>,
    c: nat,
    done: Seq<ItemView>,
    x: ItemView,
)
    requires
        sets_inv(g, n, before, c),
        k < before.len(),
        before.len() == after.len(),
        after[k as int] == before[k as int] + added || after[k as int] == before[k as int],
        forall|t: int| 0 <= t < added.len() ==> (#[trigger] added[t]).id >= c,
        x.id < c,
        forall|q: int| 0 <= q < done.len() ==> in_sets(before, #[trigger] done[q]),
        forall|q: int| 0 <= q < done.len() ==> completed_at_start(g, before, k, #[trigger] done[q]),
        next_symbol_of(g, x) is None && x.start == k ==> forall|j: int|
            0 <= j < before[k as int].len() && next_symbol_of(g, #[trigger] before[k as int][j]) == Some(
                Symbol::NonTerm(g[x.rule_index as int].lhs),
            ) ==> has_key(after[k as int], next_key(before[k as int][j])),
    ensures
        forall|q: int| 0 <= q < done.len() ==> completed_at_start(g, after, k, #[trigger] done[q]),
        completed_at_start(g, after, k, x),
{
    assert forall|q: int| 0 <= q < done.len() implies completed_at_start(g, after, k, #[trigger] done[q]) by {
        lemma_in_sets_facts(g, n, before, c, done[q]);
        lemma_completed_at_start_step(g, before, after, k, added, c, done[q]);
    }
    if next_symbol_of(g, x) is None && x.start == k {
        assert forall|j: int|
            0 <= j < after[k as int].len() && (#[trigger] after[k as int][j]).id < x.id && next_symbol_of(g, after[k as int][j])
                == Some(Symbol::NonTerm(g[x.rule_index as int].lhs)) implies has_key(after[k as int], next_key(after[k as int][j])) by {
            if j >= before[k as int].len() {
                assert(after[k as int][j] == added[j - before[k as int].len()]);
            }
            assert(after[k as int][j] == before[k as int][j]);
        }
    }
}

proof fn lemma_completed_at_start_step(g: Seq<RuleView>, before: Seq<Seq<ItemView>>, after: Seq<Seq<ItemView>>, k: nat, added: Seq<ItemView>, c: nat, x: ItemView)
    requires
        k < before.len(),
        before.len() == after.len(),
        after[k as int] == before[k as int] + added || after[k as int] == before[k as int],
        forall|t: int| 0 <= t < added.len() ==> (#[trigger] added[t]).id >= c,
        x.id < c,
        completed_at_start(g, before, k, x),
    ensures
        completed_at_start(g, after, k, x),
{
    if next_symbol_of(g, x) is None && x.start == k {
        assert forall|j: int|
            0 <= j < after[k as int].len() && (#[trigger] after[k as int][j]).id < x.id && next_symbol_of(g, after[k as int][j])
                == Some(Symbol::NonTerm(g[x.rule_index as int].lhs)) implies has_key(after[k as int], next_key(after[k as int][j])) by {
            if j >= before[k as int].len() {
                assert(after[k as int][j] == added[j - before[k as int].len()]);
            }
            assert(after[k as int][j] == before[k as int][j]);
            lemma_has_key_prefix(before[k as int], after[k as int], next_key(before[k as int][j]));
        }
    }
}

/// Some set holds an item equal to `x`.
pub open spec fn in_sets(sets: Seq<Seq<ItemView>>, x: ItemView) -> bool {
    exists|k: int, j: int| 0 <= k < sets.len() && 0 <= j < sets[k].len() && #[trigger] sets[k][j] == x
}

proof fn lemma_in_sets_facts(g: Seq<RuleView>, n: nat, sets: Seq<Seq<ItemView>>, c: nat, x: ItemView)
    requires
        sets_inv(g, n, sets, c),
        in_sets(sets, x),
    ensures
        x.id < c,
        id_present(sets, x.id),
        x.start < sets.len(),
        x.rule_index < g.len(),
        x.matched + x.remains == g[x.rule_index as int].length,
        x.children.len() == g[x.rule_index as int].length,
        g[x.rule_index as int].length == g[x.rule_index as int].rhs.len(),
        forall|i: int, m: int|
            0 <= i < x.children.len() && 0 <= m < x.children[i].len() ==> crate::earley::state::child_ok(
                g[x.rule_index as int].rhs[i],
                #[trigger] x.children[i][m],
                x.id,
                n,
            ),
        forall|i: int, m: int|
            0 <= i < x.children.len() && 0 <= m < x.children[i].len() && (g[x.rule_index as int].rhs[i] is NonTerm)
                ==> id_present(sets, (#[trigger] x.children[i][m]).1 as nat),
{
    let (k, j) = choose|k: int, j: int| 0 <= k < sets.len() && 0 <= j < sets[k].len() && #[trigger] sets[k][j] == x;
    assert(item_ok(g, n, sets[k][j], k as nat));
    assert forall|i: int, m: int|
        0 <= i < x.children.len() && 0 <= m < x.children[i].len() && (g[x.rule_index as int].rhs[i] is NonTerm)
            implies id_present(sets, (#[trigger] x.children[i][m]).1 as nat) by {
        assert(sets[k][j].children[i][m] == x.children[i][m]);
    }
}

pub proof fn lemma_in_sets_mono(s1: Seq<Seq<ItemView>>, s2: Seq<Seq<ItemView>>, x: ItemView)
    requires
        extends(s1, s2),
        in_sets(s1, x),
    ensures
        in_sets(s2, x),
{
    let (k, j) = choose|k: int, j: int| 0 <= k < s1.len() && 0 <= j < s1[k].len() && #[trigger] s1[k][j] == x;
    assert(s2[k][j] == s1[k][j]);
}

/// The key of an item with its dot moved one symbol on.
pub open spec fn next_key(x: ItemView) -> (nat, nat, nat) {
    (x.rule_index, x.start, x.matched + 1)
}

/// The item `x`, processed while handling position `index`, has had its
/// consequences recorded in `sets`: the predictions of a nonterminal after its dot,
/// the scan of a matching terminal, and, when it is complete and began before
/// `index`, the advance of every item that waited for its left-hand side.
pub open spec fn closed(g: Seq<RuleView>, terms: Seq<Terminal>, sets: Seq<Seq<ItemView>>, index: nat, x: ItemView) -> bool {
    match next_symbol_of(g, x) {
        Some(Symbol::NonTerm(a)) => forall|r: int|
            0 <= r < g.len() && (#[trigger] g[r]).lhs == a ==> has_key(sets[index as int], (r as nat, index, 0nat)),
        Some(Symbol::Terminal(t)) => index < terms.len() && terms[index as int] == t ==> has_key(
            sets[index + 1 as int],
            next_key(x),
        ),
        None => x.start < index ==> forall|j: int|
            0 <= j < sets[x.start as int].len() && next_symbol_of(g, #[trigger] sets[x.start as int][j])
                == Some(Symbol::NonTerm(g[x.rule_index as int].lhs)) ==> has_key(
                sets[index as int],
                next_key(sets[x.start as int][j]),
            ),
    }
}

pub proof fn lemma_has_key_prefix(s1: Seq<ItemView>, s2: Seq<ItemView>, k: (nat, nat, nat))
    requires
        has_key(s1, k),
        s1.len() <= s2.len(),
        forall|j: int| 0 <= j < s1.len() ==> s2[j] == s1[j],
    ensures
        has_key(s2, k),
{
    let j = choose|j: int| 0 <= j < s1.len() && key(#[trigger] s1[j]) == k;
    assert(s2[j] == s1[j]);
}

/// What `closed` records stays true as the sets grow, as long as the set where a
/// complete item began stays as it was.
pub proof fn lemma_closed_mono(g: Seq<RuleView>, terms: Seq<Terminal>, s1: Seq<Seq<ItemView>>, s2: Seq<Seq<ItemView>>, index: nat, x: ItemView)
    requires
        closed(g, terms, s1, index, x),
        extends(s1, s2),
        index < s1.len(),
        index < terms.len() ==> index + 1 < s1.len(),
        x.start < s1.len(),
        next_symbol_of(g, x) is None && x.start < index ==> s2[x.start as int] == s1[x.start as int],
    ensures
        closed(g, terms, s2, index, x),
{
    match next_symbol_of(g, x) {
        Some(Symbol::NonTerm(a)) => {
            assert forall|r: int| 0 <= r < g.len() && (#[trigger] g[r]).lhs == a implies has_key(s2[index as int], (r as nat, index, 0nat)) by {
                lemma_has_key_prefix(s1[index as int], s2[index as int], (r as nat, index, 0nat));
            }
        },
        Some(Symbol::Terminal(t)) => {
            if index < terms.len() && terms[index as int] == t {
                lemma_has_key_prefix(s1[index + 1 as int], s2[index + 1 as int], next_key(x));
            }
        },
        None => {
            if x.start < index {
                assert forall|j: int|
                    0 <= j < s2[x.start as int].len() && next_symbol_of(g, #[trigger] s2[x.start as int][j])
                        == Some(Symbol::NonTerm(g[x.rule_index as int].lhs)) implies has_key(
                        s2[index as int],
                        next_key(s2[x.start as int][j]),
                    ) by {
                    lemma_has_key_prefix(s1[index as int], s2[index as int], next_key(s1[x.start as int][j]));
                }
            }
        },
    }
}

pub proof fn lemma_predicted_covers(g: Seq<RuleView>, nt: NonTerm, set: Seq<ItemView>, index: nat, id: nat, from: nat)
    ensures
        forall|r: int|
            from <= r < g.len() && (#[trigger] g[r]).lhs == nt ==> has_key(
                set + predicted_list(g, nt, set, index, id, from),
                (r as nat, index, 0nat),
            ),
        forall|j: int| 0 <= j < set.len() ==> (set + predicted_list(g, nt, set, index, id, from))[j] == set[j],
    decreases g.len() - from,
{
    if from < g.len() {
        let rest = set + predicted_list(g, nt, set, index, id, from);
        if g[from as int].lhs == nt && !has_key(set, (from, index, 0nat)) {
            let it = predicted_item(g, from, index, id);
            lemma_predicted_covers(g, nt, set.push(it), index, id + 1, from + 1);
            assert(rest =~= set.push(it) + predicted_list(g, nt, set.push(it), index, id + 1, from + 1));
            assert forall|r: int| from <= r < g.len() && (#[trigger] g[r]).lhs == nt implies has_key(rest, (r as nat, index, 0nat)) by {
                if r == from {
                    assert(key(rest[set.len() as int]) == (r as nat, index, 0nat));
                }
            }
        } else {
            lemma_predicted_covers(g, nt, set, index, id, from + 1);
            assert forall|r: int| from <= r < g.len() && (#[trigger] g[r]).lhs == nt implies has_key(rest, (r as nat, index, 0nat)) by {
                if r == from {
                    lemma_has_key_prefix(set, rest, (r as nat, index, 0nat));
                }
            }
        }
    }
}

pub proof fn lemma_completed_covers(g: Seq<RuleView>, snap: Seq<ItemView>, lhs: NonTerm, set: Seq<ItemView>, index: nat, eid: nat, id: nat, from: nat)
    ensures
        forall|j: int|
            from <= j < snap.len() && next_symbol_of(g, #[trigger] snap[j]) == Some(Symbol::NonTerm(lhs)) ==> has_key(
                set + completed_list(g, snap, lhs, set, index, eid, id, from),
                next_key(snap[j]),
            ),
        forall|j: int| 0 <= j < set.len() ==> (set + completed_list(g, snap, lhs, set, index, eid, id, from))[j] == set[j],
    decreases snap.len() - from,
{
    if from < snap.len() {
        let rest = set + completed_list(g, snap, lhs, set, index, eid, id, from);
        let y = snap[from as int];
        let it = advanced(y, id, (index as usize, eid as usize));
        assert(key(it) == next_key(y));
        if next_symbol_of(g, y) == Some(Symbol::NonTerm(lhs)) && !has_key(set, key(it)) {
            lemma_completed_covers(g, snap, lhs, set.push(it), index, eid, id + 1, from + 1);
            assert(rest =~= set.push(it) + completed_list(g, snap, lhs, set.push(it), index, eid, id + 1, from + 1));
            assert forall|j: int| from <= j < snap.len() && next_symbol_of(g, #[trigger] snap[j]) == Some(Symbol::NonTerm(lhs)) implies has_key(rest, next_key(snap[j])) by {
                if j == from {
                    assert(key(rest[set.len() as int]) == next_key(snap[j]));
                }
            }
        } else {
            lemma_completed_covers(g, snap, lhs, set, index, eid, id, from + 1);
            assert forall|j: int| from <= j < snap.len() && next_symbol_of(g, #[trigger] snap[j]) == Some(Symbol::NonTerm(lhs)) implies has_key(rest, next_key(snap[j])) by {
                if j == from {
                    lemma_has_key_prefix(set, rest, next_key(snap[j]));
                }
            }
        }
    }
}

/// Each predicted item is a fresh item of a rule for `nt` at `index`, with an id from `id` on.
pub proof fn lemma_predicted_shape(g: Seq<RuleView>, nt: NonTerm, set: Seq<ItemView>, index: nat, id: nat, from: nat)
    ensures
        forall|t: int| 0 <= t < predicted_list(g, nt, set, index, id, from).len() ==> {
            let y = #[trigger] predicted_list(g, nt, set, index, id, from)[t];
            &&& y == predicted_item(g, y.rule_index, index, y.id)
            &&& y.rule_index < g.len()
            &&& g[y.rule_index as int].lhs == nt
            &&& y.id >= id
        },
    decreases g.len() - from,
{
    if from < g.len() {
        if g[from as int].lhs == nt && !has_key(set, (from, index, 0nat)) {
            let it = predicted_item(g, from, index, id);
            lemma_predicted_shape(g, nt, set.push(it), index, id + 1, from + 1);
            let l = predicted_list(g, nt, set, index, id, from);
            let tail = predicted_list(g, nt, set.push(it), index, id + 1, from + 1);
            assert(l == seq![it] + tail);
            assert forall|t: int| 0 <= t < l.len() implies {
                let y = #[trigger] l[t];
                &&& y == predicted_item(g, y.rule_index, index, y.id)
                &&& y.rule_index < g.len()
                &&& g[y.rule_index as int].lhs == nt
                &&& y.id >= id
            } by {
                if t > 0 {
                    assert(l[t] == tail[t - 1]);
                }
            }
        } else {
            lemma_predicted_shape(g, nt, set, index, id, from + 1);
        }
    }
}

/// Each completed item advances an item of `snap` that waits for `lhs`, with an id from `id` on.
#[verifier::spinoff_prover]
pub proof fn lemma_completed_shape(g: Seq<RuleView>, snap: Seq<ItemView>, lhs: NonTerm, set: Seq<ItemView>, index: nat, eid: nat, id: nat, from: nat)
    ensures
        forall|t: int| 0 <= t < completed_list(g, snap, lhs, set, index, eid, id, from).len() ==> {
            let y = #[trigger] completed_list(g, snap, lhs, set, index, eid, id, from)[t];
            &&& y.id >= id
            &&& exists|j: int|
                from <= j < snap.len() && next_symbol_of(g, #[trigger] snap[j]) == Some(Symbol::NonTerm(lhs))
                    && y == advanced(snap[j], y.id, (index as usize, eid as usize))
        },
    decreases snap.len() - from,
{
    if from < snap.len() {
        let x = snap[from as int];
        let it = advanced(x, id, (index as usize, eid as usize));
        if next_symbol_of(g, x) == Some(Symbol::NonTerm(lhs)) && !has_key(set, key(it)) {
            lemma_completed_shape(g, snap, lhs, set.push(it), index, eid, id + 1, from + 1);
            let l = completed_list(g, snap, lhs, set, index, eid, id, from);
            let tail = completed_list(g, snap, lhs, set.push(it), index, eid, id + 1, from + 1);
            assert(l == seq![it] + tail);
            assert forall|t: int| 0 <= t < l.len() implies {
                let y = #[trigger] l[t];
                &&& y.id >= id
                &&& exists|j: int|
                    from <= j < snap.len() && next_symbol_of(g, #[trigger] snap[j]) == Some(Symbol::NonTerm(lhs))
                        && y == advanced(snap[j], y.id, (index as usize, eid as usize))
            } by {
                if t > 0 {
                    assert(l[t] == tail[t - 1]);
                } else {
                    assert(l[0] == it);
                    assert(snap[from as int] == x);
                }
            }
        } else {
            lemma_completed_shape(g, snap, lhs, set, index, eid, id, from + 1);
            let l = completed_list(g, snap, lhs, set, index, eid, id, from);
            assert(l == completed_list(g, snap, lhs, set, index, eid, id, from + 1));
            assert forall|t: int| 0 <= t < l.len() implies {
                let y = #[trigger] l[t];
                &&& y.id >= id
                &&& exists|j: int|
                    from <= j < snap.len() && next_symbol_of(g, #[trigger] snap[j]) == Some(Symbol::NonTerm(lhs))
                        && y == advanced(snap[j], y.id, (index as usize, eid as usize))
            } by {
                let y = l[t];
                let j = choose|j: int|
                    from + 1 <= j < snap.len() && next_symbol_of(g, #[trigger] snap[j]) == Some(Symbol::NonTerm(lhs))
                        && y == advanced(snap[j], y.id, (index as usize, eid as usize));
                assert(from <= j);
            }
        }
    }
}

/// The items that predicting the nonterminal after the dot of `x` adds are justified by `x`.
proof fn lemma_predictions_justified(g: Seq<RuleView>, terms: Seq<Terminal>, sets: Seq<Seq<ItemView>>, index: int, x: ItemView, a: NonTerm, set: Seq<ItemView>, c: nat)
    requires
        index >= 0,
        in_set(sets, index, x),
        x.id < c,
        next_symbol_of(g, x) == Some(Symbol::NonTerm(a)),
    ensures
        forall|t: int| 0 <= t < predicted_list(g, a, set, index as nat, c, 0).len() ==> justified(
            g,
            terms,
            sets,
            index,
            #[trigger] predicted_list(g, a, set, index as nat, c, 0)[t],
        ),
{
    reveal(justified);
    lemma_predicted_shape(g, a, set, index as nat, c, 0);
    let l = predicted_list(g, a, set, index as nat, c, 0);
    assert forall|t: int| 0 <= t < l.len() implies justified(g, terms, sets, index, #[trigger] l[t]) by {
        let y = l[t];
        assert(in_set(sets, index, x));
        assert(predicted_at(g, sets, index, y));
    }
}

/// The items that completing `x` adds are justified by `x` and the items of the set
/// where `x` began.
proof fn lemma_completions_justified(g: Seq<RuleView>, terms: Seq<Terminal>, before: Seq<Seq<ItemView>>, sets: Seq<Seq<ItemView>>, index: int, x: ItemView, set: Seq<ItemView>, c: nat)
    requires
        index >= 0,
        in_set(sets, index, x),
        extends(before, sets),
        x.id < c,
        x.remains == 0,
        x.start <= index,
        0 <= x.start < before.len(),
        forall|j: int| 0 <= j < before[x.start as int].len() ==> (#[trigger] before[x.start as int][j]).id < c,
    ensures
        forall|t: int| 0 <= t < completed_list(g, before[x.start as int], g[x.rule_index as int].lhs, set, index as nat, x.id, c, 0).len()
            ==> justified(
            g,
            terms,
            sets,
            index,
            #[trigger] completed_list(g, before[x.start as int], g[x.rule_index as int].lhs, set, index as nat, x.id, c, 0)[t],
        ),
{
    reveal(justified);
    let snap = before[x.start as int];
    let lhs = g[x.rule_index as int].lhs;
    lemma_completed_shape(g, snap, lhs, set, index as nat, x.id, c, 0);
    let l = completed_list(g, snap, lhs, set, index as nat, x.id, c, 0);
    assert forall|t: int| 0 <= t < l.len() implies justified(g, terms, sets, index, #[trigger] l[t]) by {
        let y = l[t];
        let j = choose|j: int|
            0 <= j < snap.len() && next_symbol_of(g, #[trigger] snap[j]) == Some(Symbol::NonTerm(lhs))
                && y == advanced(snap[j], y.id, (index as nat as usize, x.id as usize));
        let p = snap[j];
        assert(sets[x.start as int][j] == p);
        assert(in_set(sets, x.start as int, p));
        assert(in_set(sets, index, x));
        assert(completed_at(g, sets, index, y));
    }
}

/// Adding justified items to one set keeps every item justified.
proof fn lemma_sound_step(g: Seq<RuleView>, terms: Seq<Terminal>, before: Seq<Seq<ItemView>>, after: Seq<Seq<ItemView>>, grown: int, added: Seq<ItemView>)
    requires
        sound(g, terms, before),
        extends(before, after),
        0 <= grown < before.len(),
        after == before.update(grown, before[grown] + added),
        forall|t: int| 0 <= t < added.len() ==> justified(g, terms, after, grown, #[trigger] added[t]),
    ensures
        sound(g, terms, after),
{
    reveal(sound);
    assert forall|k: int, j: int| 0 <= k < after.len() && 0 <= j < after[k].len() implies justified(g, terms, after, k, #[trigger] after[k][j]) by {
        if k == grown && j >= before[grown].len() {
            assert(after[k][j] == added[j - before[grown].len()]);
        } else {
            assert(after[k][j] == before[k][j]);
            lemma_justified_mono(g, terms, before, after, k, before[k][j]);
        }
    }
}

/// Predictions get ids from `c` on.
proof fn lemma_predicted_fresh(g: Seq<RuleView>, a: NonTerm, set: Seq<ItemView>, index: nat, c: nat)
    ensures
        forall|t: int| 0 <= t < predicted_list(g, a, set, index, c, 0).len()
            ==> (#[trigger] predicted_list(g, a, set, index, c, 0)[t]).id >= c,
{
    lemma_predicted_shape(g, a, set, index, c, 0);
}

/// Completions get ids from `c` on.
proof fn lemma_completed_fresh(g: Seq<RuleView>, snap: Seq<ItemView>, lhs: NonTerm, set: Seq<ItemView>, index: nat, eid: nat, c: nat)
    ensures
        forall|t: int| 0 <= t < completed_list(g, snap, lhs, set, index, eid, c, 0).len()
            ==> (#[trigger] completed_list(g, snap, lhs, set, index, eid, c, 0)[t]).id >= c,
{
    lemma_completed_shape(g, snap, lhs, set, index, eid, c, 0);
}

proof fn lemma_total_zero(sets: Seq<Seq<ItemView>>)
    requires
        forall|k: int| 0 <= k < sets.len() ==> (#[trigger] sets[k]).len() == 0,
    ensures
        crate::earley::state::total(sets) == 0,
    decreases sets.len(),
{
    if sets.len() > 0 {
        lemma_total_zero(sets.drop_last());
    }
}

} // verus!
