//! Subset construction: from an automaton with several transitions per state
//! and symbol to one with at most one, recognizing the same words.

use vstd::prelude::*;
use crate::model::{AutomataView, step, meets, inhabited};
use crate::names::{names, name_set, contains_name, insert_name, copy_names, share_name};
use crate::label::{label, pick, subsets, pick_names, make_label, lemma_label_unique,
    lemma_pick_unique, lemma_subsets};
use crate::automata::Automata;

verus! {

/// `base` followed by the destinations of `trs` that were not listed before.
pub open spec fn extend(
    base: Seq<Seq<char>>,
    trs: Seq<(Seq<char>, Seq<char>, Seq<char>)>,
) -> Seq<Seq<char>>
    decreases trs.len(),
{
    if trs.len() == 0 {
        base
    } else {
        let front = extend(base, trs.drop_last());
        if front.contains(trs.last().2) {
            front
        } else {
            front.push(trs.last().2)
        }
    }
}

/// `extend` keeps what `base` lists and lists every destination.
pub proof fn lemma_extend_members(
    base: Seq<Seq<char>>,
    trs: Seq<(Seq<char>, Seq<char>, Seq<char>)>,
)
    ensures
        forall|x: Seq<char>| base.contains(x) ==> #[trigger] extend(base, trs).contains(x),
        forall|j: int| 0 <= j < trs.len() ==> extend(base, trs).contains((#[trigger] trs[j]).2),
    decreases trs.len(),
{
    if trs.len() > 0 {
        let front = extend(base, trs.drop_last());
        let whole = extend(base, trs);
        lemma_extend_members(base, trs.drop_last());
        assert forall|x: Seq<char>| front.contains(x) implies whole.contains(x) by {
            let i = choose|i: int| 0 <= i < front.len() && front[i] == x;
            assert(whole[i] == x);
        }
        assert forall|j: int| 0 <= j < trs.len() implies whole.contains((#[trigger] trs[j]).2) by {
            if j < trs.len() - 1 {
                assert(trs.drop_last()[j] == trs[j]);
                assert(front.contains(trs.drop_last()[j].2));
            } else if !front.contains(trs.last().2) {
                assert(whole[whole.len() - 1] == trs[j].2);
            }
        }
    }
}

impl Automata {
    /// Every name the automaton speaks of, each once: the registered states
    /// in the order of their registration, then the destinations of
    /// transitions that were never registered, in the order of insertion.
    pub open spec fn support_order(&self) -> Seq<Seq<char>> {
        extend(self.state_order(), self.transition_order())
    }

    /// The name of the merged state that stands for the set `s`: the members
    /// of `s` in the order of `support_order`, written out as one string.
    pub open spec fn label_of(&self, s: Set<Seq<char>>) -> Seq<char> {
        label(pick(self.support_order(), s))
    }

    /// The merged state that a word leads to.
    pub open spec fn state_for(&self, word: Seq<Seq<char>>) -> Seq<char> {
        self.label_of(self@.reach(word))
    }

    /// `q` is the merged state that the live word `word` leads to.
    pub open spec fn names_state(&self, word: Seq<Seq<char>>, q: Seq<char>) -> bool {
        self@.live(word) && q == self.state_for(word)
    }

    /// `q` is the merged state that the accepted word `word` leads to.
    pub open spec fn names_terminal(&self, word: Seq<Seq<char>>, q: Seq<char>) -> bool {
        self@.live(word) && self@.accepts(word) && q == self.state_for(word)
    }

    /// `t` leads from the merged state of `word` to the merged state of `word`
    /// followed by the symbol of `t`, and that longer word is live.
    pub open spec fn names_arc(
        &self,
        word: Seq<Seq<char>>,
        t: (Seq<char>, Seq<char>, Seq<char>),
    ) -> bool {
        &&& self@.live(word.push(t.1))
        &&& t.0 == self.state_for(word)
        &&& t.2 == self.state_for(word.push(t.1))
    }

    /// `d` is the subset construction of this automaton. Its states are the
    /// merged states of the live words; the empty word gives its one initial
    /// state; a merged state is terminal where its set holds a terminal
    /// state; and one transition leads from the state of a word to the state
    /// of each live extension by one symbol.
    pub open spec fn determinizes_to(&self, d: AutomataView) -> bool {
        &&& d.initial == set![self.state_for(Seq::empty())]
        &&& forall|q: Seq<char>| #[trigger]
            d.states.contains(q) <==> exists|w: Seq<Seq<char>>| self.names_state(w, q)
        &&& forall|q: Seq<char>| #[trigger]
            d.terminal.contains(q) <==> exists|w: Seq<Seq<char>>| self.names_terminal(w, q)
        &&& forall|t: (Seq<char>, Seq<char>, Seq<char>)| #[trigger]
            d.transitions.contains(t) <==> exists|w: Seq<Seq<char>>| self.names_arc(w, t)
    }

    /// The set `s` has been expanded on the symbol `a`: where it has
    /// successors, their set is in `table` and the transition is in `arcs`.
    spec fn served(
        &self,
        s: Set<Seq<char>>,
        a: Seq<char>,
        table: Seq<Set<Seq<char>>>,
        arcs: Set<(Seq<char>, Seq<char>, Seq<char>)>,
    ) -> bool {
        let next = step(self@.transitions, s, a);
        inhabited(next) ==> arcs.contains((self.label_of(s), a, self.label_of(next)))
            && table.contains(next)
    }

    /// What was served stays served when the table and the transitions grow.
    proof fn lemma_served_grows(
        &self,
        s: Set<Seq<char>>,
        a: Seq<char>,
        table: Seq<Set<Seq<char>>>,
        arcs: Set<(Seq<char>, Seq<char>, Seq<char>)>,
        table2: Seq<Set<Seq<char>>>,
        arcs2: Set<(Seq<char>, Seq<char>, Seq<char>)>,
    )
        requires
            self.served(s, a, table, arcs),
            table.len() <= table2.len(),
            forall|j: int| 0 <= j < table.len() ==> table2[j] == table[j],
            arcs.subset_of(arcs2),
        ensures
            self.served(s, a, table2, arcs2),
    {
        let next = step(self@.transitions, s, a);
        if inhabited(next) {
            let j = choose|j: int| 0 <= j < table.len() && table[j] == next;
            assert(table2[j] == next);
        }
    }

    /// Every live state-set is drawn from the names of `support_order`.
    pub proof fn lemma_reach_in_support(&self, word: Seq<Seq<char>>)
        requires
            self.wf(),
        ensures
            forall|x: Seq<char>|
                self@.reach(word).contains(x) ==> self.support_order().contains(x),
    {
        self.lemma_wf_view();
        lemma_extend_members(self.state_order(), self.transition_order());
        assert forall|x: Seq<char>| self@.reach(word).contains(x) implies self.support_order(
        ).contains(x) by {
            if word.len() == 0 {
                assert(self@.states.contains(x));
                assert(self.state_order().contains(x));
            } else {
                let from = self@.reach(word.drop_last());
                let q = choose|q: Seq<char>|
                    from.contains(q) && #[trigger] self@.transitions.contains(
                        (q, word.last(), x),
                    );
                let t = (q, word.last(), x);
                assert(self.transition_order().contains(t));
                let j = choose|j: int|
                    0 <= j < self.transition_order().len() && self.transition_order()[j] == t;
                assert(self.transition_order()[j].2 == x);
            }
        }
    }

    /// Merged names are canonical: two sets of names that the automaton
    /// speaks of have the same merged name exactly where they are the same
    /// set, in whatever order their members were found.
    pub proof fn lemma_label_canonical(&self, s: Set<Seq<char>>, t: Set<Seq<char>>)
        requires
            forall|x: Seq<char>| s.contains(x) ==> self.support_order().contains(x),
            forall|x: Seq<char>| t.contains(x) ==> self.support_order().contains(x),
        ensures
            self.label_of(s) == self.label_of(t) <==> s == t,
    {
        if self.label_of(s) == self.label_of(t) {
            lemma_label_unique(pick(self.support_order(), s), pick(self.support_order(), t));
            lemma_pick_unique(self.support_order(), s, t);
        }
    }

    /// Two words lead to the same merged state exactly where they lead to the
    /// same state-set.
    pub proof fn lemma_state_for_canonical(&self, v: Seq<Seq<char>>, w: Seq<Seq<char>>)
        requires
            self.wf(),
        ensures
            self.state_for(v) == self.state_for(w) <==> self@.reach(v) == self@.reach(w),
    {
        self.lemma_reach_in_support(v);
        self.lemma_reach_in_support(w);
        self.lemma_label_canonical(self@.reach(v), self@.reach(w));
    }

    /// A table that starts with the initial set and whose every entry has
    /// been expanded on every symbol holds the state-set of every live word.
    proof fn lemma_closure(
        &self,
        table: Seq<Set<Seq<char>>>,
        arcs: Set<(Seq<char>, Seq<char>, Seq<char>)>,
        word: Seq<Seq<char>>,
    )
        requires
            table.len() > 0,
            table[0] == self@.initial,
            forall|i: int, a: Seq<char>|
                0 <= i < table.len() ==> #[trigger] self.served(table[i], a, table, arcs),
            self@.live(word),
        ensures
            table.contains(self@.reach(word)),
        decreases word.len(),
    {
        if word.len() == 0 {
            assert(table[0] == self@.reach(word));
        } else {
            let front = word.drop_last();
            assert(word =~= front.push(word.last()));
            self@.lemma_reach_push(front, word.last());
            self.lemma_closure(table, arcs, front);
            let i = choose|i: int| 0 <= i < table.len() && table[i] == self@.reach(front);
            assert(self.served(table[i], word.last(), table, arcs));
        }
    }

    /// Every name the automaton speaks of, each once.
    pub fn support(&self) -> (r: Vec<String>)
        requires
            self.wf(),
        ensures
            names(r@) == self.support_order(),
    {
        proof {
            self.lemma_wf_view();
        }
        let transitions = self.get_transitions();
        let mut r = copy_names(self.get_states());
        let ghost trs = self.transition_order();
        let mut i: usize = 0;
        while i < transitions.len()
            invariant
                i <= transitions.len(),
                trs == crate::names::triples(transitions@),
                names(r@).no_duplicates(),
                names(r@) == extend(self.state_order(), trs.take(i as int)),
            decreases transitions.len() - i,
        {
            assert(trs.take(i + 1).drop_last() =~= trs.take(i as int));
            assert(trs.take(i + 1).last().2 == transitions@[i as int].2@);
            insert_name(&mut r, transitions[i].2.clone());
            i += 1;
        }
        assert(trs.take(transitions.len() as int) =~= trs);
        r
    }

    /// The name of the merged state that stands for the names in `set`. The
    /// order and the repetitions of `set` do not matter.
    pub fn merged_label(&self, set: &Vec<String>) -> (r: String)
        requires
            self.wf(),
        ensures
            r@ == self.label_of(name_set(set@)),
    {
        let order = self.support();
        let members = pick_names(&order, set);
        make_label(&members)
    }

    /// What holds of a construction under way. Each entry of the table is the
    /// state-set of a live word, kept as a list of its members together with
    /// its merged name; the table starts with the initial set; whatever `d`
    /// holds is part of the subset construction; and `d` holds the merged
    /// state of every entry, marked terminal where it ought to be.
    spec fn table_inv(
        &self,
        d: AutomataView,
        sets: Seq<Vec<String>>,
        labels: Seq<String>,
        words: Seq<Seq<Seq<char>>>,
        reached: Seq<Set<Seq<char>>>,
    ) -> bool {
        &&& reached.len() >= 1
        &&& sets.len() == reached.len()
        &&& labels.len() == reached.len()
        &&& words.len() == reached.len()
        &&& reached[0] == self@.initial
        &&& forall|i: int|
            0 <= i < reached.len() ==> self@.live(#[trigger] words[i]) && reached[i]
                == self@.reach(words[i])
        &&& forall|i: int| 0 <= i < reached.len() ==> name_set((#[trigger] sets[i])@) == reached[i]
        &&& forall|i: int|
            0 <= i < reached.len() ==> (#[trigger] labels[i])@ == self.label_of(reached[i])
        &&& d.initial == set![self.state_for(Seq::empty())]
        &&& forall|q: Seq<char>| #[trigger]
            d.states.contains(q) ==> exists|w: Seq<Seq<char>>| self.names_state(w, q)
        &&& forall|q: Seq<char>| #[trigger]
            d.terminal.contains(q) ==> exists|w: Seq<Seq<char>>| self.names_terminal(w, q)
        &&& forall|t: (Seq<char>, Seq<char>, Seq<char>)| #[trigger]
            d.transitions.contains(t) ==> exists|w: Seq<Seq<char>>| self.names_arc(w, t)
        &&& forall|i: int|
            0 <= i < reached.len() ==> d.states.contains(self.label_of(#[trigger] reached[i]))
        &&& forall|i: int|
            0 <= i < reached.len() && meets(reached[i], self@.terminal) ==> d.terminal.contains(
                self.label_of(#[trigger] reached[i]),
            )
    }

    /// The sets that may still be found: finitely many, and every set of
    /// names that is not in the table is among them.
    spec fn measure_inv(
        &self,
        reached: Seq<Set<Seq<char>>>,
        remaining: Set<Set<Seq<char>>>,
    ) -> bool {
        &&& remaining.finite()
        &&& forall|s: Set<Seq<char>>| #[trigger]
            subsets(self.support_order()).contains(s) ==> remaining.contains(s)
                || reached.contains(s)
    }

    /// The subset construction. The result has one initial state, the merged
    /// state of this automaton's initial states, and at most one transition
    /// per state and symbol. An automaton without initial states gives a
    /// single state that is not terminal and has no transitions, so that
    /// every word is rejected.
    ///
    /// The loop ends because every round either finds a set of names that was
    /// not in the table, of which there are finitely many, or leaves one
    /// entry fewer to expand.
    pub fn determinize(&self) -> (dfa: Self)
        requires
            self.wf(),
        ensures
            dfa.wf(),
            self.determinizes_to(dfa@),
            dfa@.deterministic(),
            forall|word: Seq<Seq<char>>| #[trigger] dfa@.accepts(word) == self@.accepts(word),
    {
        let support = self.support();
        let alphabet = self.alphabet();
        let terminal = self.get_terminal_states();
        let ghost empty_word = Seq::<Seq<char>>::empty();

        let init = copy_names(self.get_initial_states());
        let init_members = pick_names(&support, &init);
        let init_label = make_label(&init_members);
        let init_terminal = share_name(&init, terminal);
        assert(name_set(init@) =~= self@.initial);

        let mut dfa = Automata::new();
        dfa.add_state(init_label.clone(), true, init_terminal);
        let mut sets: Vec<Vec<String>> = Vec::new();
        let mut labels: Vec<String> = Vec::new();
        sets.push(init);
        labels.push(init_label);
        let ghost mut words: Seq<Seq<Seq<char>>> = seq![empty_word];
        let ghost mut reached: Seq<Set<Seq<char>>> = seq![self@.initial];
        let ghost mut remaining: Set<Set<Seq<char>>> = subsets(self.support_order()).remove(
            self@.initial,
        );
        proof {
            lemma_subsets(self.support_order());
            assert(dfa@.initial =~= set![self.state_for(empty_word)]);
            assert(self.names_state(empty_word, self.state_for(empty_word)));
            if init_terminal {
                assert(self.names_terminal(empty_word, self.state_for(empty_word)));
            }
            assert forall|s: Set<Seq<char>>| #[trigger]
                subsets(self.support_order()).contains(s) implies remaining.contains(s)
                || reached.contains(s) by {
                if s == self@.initial {
                    assert(reached[0] == s);
                }
            }
        }
        let mut next: usize = 0;
        while next < sets.len()
            invariant
                self.wf(),
                dfa.wf(),
                names(support@) == self.support_order(),
                name_set(alphabet@) == self@.alphabet(),
                name_set(terminal@) == self@.terminal,
                next <= sets.len(),
                self.table_inv(dfa@, sets@, labels@, words, reached),
                self.measure_inv(reached, remaining),
                forall|i: int, a: Seq<char>|
                    0 <= i < next ==> #[trigger] self.served(
                        reached[i],
                        a,
                        reached,
                        dfa@.transitions,
                    ),
            decreases remaining.len(), sets.len() - next,
        {
            let ghost remaining_before = remaining;
            let ghost len_before = sets.len();
            let mut k: usize = 0;
            while k < alphabet.len()
                invariant
                    self.wf(),
                    dfa.wf(),
                    names(support@) == self.support_order(),
                    name_set(alphabet@) == self@.alphabet(),
                    name_set(terminal@) == self@.terminal,
                    next < sets.len(),
                    k <= alphabet.len(),
                    self.table_inv(dfa@, sets@, labels@, words, reached),
                    self.measure_inv(reached, remaining),
                    forall|i: int, a: Seq<char>|
                        0 <= i < next ==> #[trigger] self.served(
                            reached[i],
                            a,
                            reached,
                            dfa@.transitions,
                        ),
                    forall|j: int|
                        0 <= j < k ==> self.served(
                            reached[next as int],
                            #[trigger] names(alphabet@)[j],
                            reached,
                            dfa@.transitions,
                        ),
                    remaining.len() <= remaining_before.len(),
                    sets.len() >= len_before,
                    remaining.len() == remaining_before.len() ==> sets.len() == len_before,
                decreases alphabet.len() - k,
            {
                let letter = alphabet[k].clone();
                let ghost a = letter@;
                let ghost from = reached[next as int];
                let ghost word = words[next as int].push(a);
                let ghost target = step(self@.transitions, from, a);
                let ghost table_before = reached;
                let ghost arcs_before = dfa@.transitions;
                assert(names(alphabet@)[k as int] == a);
                assert(name_set(sets@[next as int]@) == from);
                let succs = self.successors(&sets[next], letter.clone());
                proof {
                    self@.lemma_reach_push(words[next as int], a);
                    self.lemma_reach_in_support(word);
                }
                if succs.len() > 0 {
                    assert(inhabited(target)) by {
                        assert(names(succs@)[0] == succs@[0]@);
                        assert(names(succs@).contains(succs@[0]@));
                        assert(target.contains(succs@[0]@));
                    }
                    let members = pick_names(&support, &succs);
                    let merged = make_label(&members);
                    assert(merged@ == self.label_of(target));
                    if !contains_name(&labels, &merged) {
                        let is_terminal = share_name(&succs, terminal);
                        proof {
                            assert forall|j: int| 0 <= j < reached.len() implies reached[j]
                                != target by {
                                if reached[j] == target {
                                    assert(names(labels@)[j] == labels@[j]@);
                                    assert(names(labels@).contains(merged@));
                                }
                            }
                            lemma_subsets(self.support_order());
                            assert(subsets(self.support_order()).contains(target));
                            assert(remaining.contains(target));
                        }
                        dfa.add_state(merged.clone(), false, is_terminal);
                        sets.push(succs);
                        labels.push(merged.clone());
                        proof {
                            words = words.push(word);
                            reached = reached.push(target);
                            remaining = remaining.remove(target);
                            assert(self.names_state(word, merged@));
                            if is_terminal {
                                assert(self.names_terminal(word, merged@));
                            }
                            assert forall|s: Set<Seq<char>>| #[trigger]
                                subsets(self.support_order()).contains(s) implies remaining.contains(
                                s,
                            ) || reached.contains(s) by {
                                if s == target {
                                    assert(reached[reached.len() - 1] == s);
                                } else if table_before.contains(s) {
                                    let j = choose|j: int|
                                        0 <= j < table_before.len() && table_before[j] == s;
                                    assert(reached[j] == s);
                                }
                            }
                        }
                    } else {
                        proof {
                            let j = choose|j: int|
                                0 <= j < names(labels@).len() && names(labels@)[j] == merged@;
                            assert(labels@[j]@ == self.label_of(reached[j]));
                            self.lemma_reach_in_support(words[j]);
                            self.lemma_label_canonical(reached[j], target);
                            assert(reached[j] == target);
                        }
                    }
                    assert(reached.contains(target)) by {
                        if reached.len() > table_before.len() {
                            assert(reached[reached.len() - 1] == target);
                        }
                    }
                    dfa.add_transition(labels[next].clone(), letter, merged);
                    proof {
                        let t = (self.label_of(from), a, self.label_of(target));
                        assert(self.names_arc(words[next as int], t));
                        assert(self.served(from, a, reached, dfa@.transitions));
                    }
                } else {
                    assert(!inhabited(target)) by {
                        if inhabited(target) {
                            let d = choose|d: Seq<char>| target.contains(d);
                            assert(names(succs@).contains(d));
                        }
                    }
                }
                proof {
                    assert forall|i: int, b: Seq<char>| 0 <= i < next implies #[trigger] self.served(
                        reached[i],
                        b,
                        reached,
                        dfa@.transitions,
                    ) by {
                        assert(self.served(table_before[i], b, table_before, arcs_before));
                        self.lemma_served_grows(
                            table_before[i],
                            b,
                            table_before,
                            arcs_before,
                            reached,
                            dfa@.transitions,
                        );
                    }
                    assert forall|j: int| 0 <= j < k + 1 implies self.served(
                        reached[next as int],
                        #[trigger] names(alphabet@)[j],
                        reached,
                        dfa@.transitions,
                    ) by {
                        if j < k {
                            assert(self.served(
                                from,
                                names(alphabet@)[j],
                                table_before,
                                arcs_before,
                            ));
                            self.lemma_served_grows(
                                from,
                                names(alphabet@)[j],
                                table_before,
                                arcs_before,
                                reached,
                                dfa@.transitions,
                            );
                        }
                    }
                }
                k += 1;
            }
            proof {
                let from = reached[next as int];
                assert forall|b: Seq<char>| self.served(from, b, reached, dfa@.transitions) by {
                    if inhabited(step(self@.transitions, from, b)) {
                        self@.lemma_reach_push(words[next as int], b);
                        assert(names(alphabet@).contains(b));
                        let j = choose|j: int|
                            0 <= j < names(alphabet@).len() && names(alphabet@)[j] == b;
                        assert(self.served(from, names(alphabet@)[j], reached, dfa@.transitions));
                    }
                }
            }
            next += 1;
        }
        proof {
            self.lemma_table_complete(dfa@, reached);
            self.lemma_determinized_deterministic(dfa@);
            assert forall|word: Seq<Seq<char>>| #[trigger]
                dfa@.accepts(word) == self@.accepts(word) by {
                self.lemma_language_preserved(dfa@, word);
            }
        }
        dfa
    }

    /// A sound result whose table is closed is the subset construction.
    proof fn lemma_table_complete(&self, d: AutomataView, table: Seq<Set<Seq<char>>>)
        requires
            self.wf(),
            table.len() > 0,
            table[0] == self@.initial,
            d.initial == set![self.state_for(Seq::empty())],
            forall|q: Seq<char>| #[trigger]
                d.states.contains(q) ==> exists|w: Seq<Seq<char>>| self.names_state(w, q),
            forall|q: Seq<char>| #[trigger]
                d.terminal.contains(q) ==> exists|w: Seq<Seq<char>>| self.names_terminal(w, q),
            forall|t: (Seq<char>, Seq<char>, Seq<char>)| #[trigger]
                d.transitions.contains(t) ==> exists|w: Seq<Seq<char>>| self.names_arc(w, t),
            forall|i: int|
                0 <= i < table.len() ==> d.states.contains(self.label_of(#[trigger] table[i])),
            forall|i: int|
                0 <= i < table.len() && meets(table[i], self@.terminal) ==> d.terminal.contains(
                    self.label_of(#[trigger] table[i]),
                ),
            forall|i: int, a: Seq<char>|
                0 <= i < table.len() ==> #[trigger] self.served(table[i], a, table, d.transitions),
        ensures
            self.determinizes_to(d),
    {
        assert forall|q: Seq<char>| (exists|w: Seq<Seq<char>>| self.names_state(w, q))
            implies d.states.contains(q) by {
            let w = choose|w: Seq<Seq<char>>| self.names_state(w, q);
            self.lemma_closure(table, d.transitions, w);
            let i = choose|i: int| 0 <= i < table.len() && table[i] == self@.reach(w);
            assert(d.states.contains(self.label_of(table[i])));
        }
        assert forall|q: Seq<char>| (exists|w: Seq<Seq<char>>| self.names_terminal(w, q))
            implies d.terminal.contains(q) by {
            let w = choose|w: Seq<Seq<char>>| self.names_terminal(w, q);
            self.lemma_closure(table, d.transitions, w);
            let i = choose|i: int| 0 <= i < table.len() && table[i] == self@.reach(w);
            assert(d.terminal.contains(self.label_of(table[i])));
        }
        assert forall|t: (Seq<char>, Seq<char>, Seq<char>)|
            (exists|w: Seq<Seq<char>>| self.names_arc(w, t)) implies d.transitions.contains(t) by {
            let w = choose|w: Seq<Seq<char>>| self.names_arc(w, t);
            self@.lemma_reach_push(w, t.1);
            self.lemma_closure(table, d.transitions, w);
            let i = choose|i: int| 0 <= i < table.len() && table[i] == self@.reach(w);
            assert(self.served(table[i], t.1, table, d.transitions));
            assert(t == (t.0, t.1, t.2));
        }
    }
}

} // verus!
