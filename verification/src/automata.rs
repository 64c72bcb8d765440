//! The automaton store, transition lookup and word acceptance.

use vstd::prelude::*;
use crate::model::{AutomataView, step, targets, symbols};
use crate::names::{names, name_set, triples, triple_set, insert_name, insert_triple, merge_names,
    copy_names, share_name, lemma_name_set_len};

verus! {

/// A finite automaton whose states are named by strings and whose transitions
/// carry string symbols. Several transitions may leave one state on one symbol.
#[derive(Debug)]
pub struct Automata {
    states: Vec<String>,
    transitions: Vec<(String, String, String)>,
    initial_states: Vec<String>,
    terminal_states: Vec<String>,
}

impl View for Automata {
    type V = AutomataView;

    closed spec fn view(&self) -> AutomataView {
        AutomataView {
            states: name_set(self.states@),
            transitions: triple_set(self.transitions@),
            initial: name_set(self.initial_states@),
            terminal: name_set(self.terminal_states@),
        }
    }
}

impl Automata {
    /// The representation invariant: no list repeats an entry, and the initial
    /// and terminal states are registered states.
    pub closed spec fn wf(&self) -> bool {
        &&& names(self.states@).no_duplicates()
        &&& triples(self.transitions@).no_duplicates()
        &&& names(self.initial_states@).no_duplicates()
        &&& names(self.terminal_states@).no_duplicates()
        &&& self@.initial.subset_of(self@.states)
        &&& self@.terminal.subset_of(self@.states)
    }

    /// The registered states in the order of their registration.
    pub closed spec fn state_order(&self) -> Seq<Seq<char>> {
        names(self.states@)
    }

    /// The transitions in the order of their insertion.
    pub closed spec fn transition_order(&self) -> Seq<(Seq<char>, Seq<char>, Seq<char>)> {
        triples(self.transitions@)
    }

    /// What the representation invariant means for the view.
    pub proof fn lemma_wf_view(&self)
        requires
            self.wf(),
        ensures
            self@.states.finite(),
            self@.transitions.finite(),
            self@.initial.subset_of(self@.states),
            self@.terminal.subset_of(self@.states),
            self.state_order().no_duplicates(),
            self.transition_order().no_duplicates(),
            self@.states == self.state_order().to_set(),
            self@.transitions == self.transition_order().to_set(),
            self@.states.len() == self.state_order().len(),
            self@.transitions.len() == self.transition_order().len(),
    {
        broadcast use vstd::seq_lib::group_seq_properties;

        lemma_name_set_len(self.states@);
        assert(self@.states =~= self.state_order().to_set());
        assert(self@.transitions =~= self.transition_order().to_set());
        self.transition_order().unique_seq_to_set();
    }

    /// An automaton with no states and no transitions.
    pub fn new() -> (a: Self)
        ensures
            a.wf(),
            a@.states == Set::<Seq<char>>::empty(),
            a@.transitions == Set::<(Seq<char>, Seq<char>, Seq<char>)>::empty(),
            a@.initial == Set::<Seq<char>>::empty(),
            a@.terminal == Set::<Seq<char>>::empty(),
            a.state_order() == Seq::<Seq<char>>::empty(),
            a.transition_order() == Seq::<(Seq<char>, Seq<char>, Seq<char>)>::empty(),
    {
        let a = Automata {
            states: Vec::new(),
            transitions: Vec::new(),
            initial_states: Vec::new(),
            terminal_states: Vec::new(),
        };
        assert(a@.states =~= Set::<Seq<char>>::empty());
        assert(a@.transitions =~= Set::<(Seq<char>, Seq<char>, Seq<char>)>::empty());
        assert(a@.initial =~= Set::<Seq<char>>::empty());
        assert(a@.terminal =~= Set::<Seq<char>>::empty());
        assert(a.state_order() =~= Seq::<Seq<char>>::empty());
        assert(a.transition_order() =~= Seq::<(Seq<char>, Seq<char>, Seq<char>)>::empty());
        a
    }

    /// Registers `state`. The flags only ever add a mark: a state that is
    /// already initial or terminal stays so.
    pub fn add_state(&mut self, state: String, is_initial: bool, is_terminal: bool)
        requires
            old(self).wf(),
        ensures
            final(self).wf(),
            final(self)@.states == old(self)@.states.insert(state@),
            final(self)@.initial == if is_initial {
                old(self)@.initial.insert(state@)
            } else {
                old(self)@.initial
            },
            final(self)@.terminal == if is_terminal {
                old(self)@.terminal.insert(state@)
            } else {
                old(self)@.terminal
            },
            final(self)@.transitions == old(self)@.transitions,
            final(self).transition_order() == old(self).transition_order(),
            final(self).state_order() == if old(self)@.states.contains(state@) {
                old(self).state_order()
            } else {
                old(self).state_order().push(state@)
            },
            final(self)@.states.len() == if old(self)@.states.contains(state@) {
                old(self)@.states.len()
            } else {
                old(self)@.states.len() + 1
            },
    {
        proof {
            old(self).lemma_wf_view();
        }
        insert_name(&mut self.states, state.clone());
        if is_initial {
            insert_name(&mut self.initial_states, state.clone());
        }
        if is_terminal {
            insert_name(&mut self.terminal_states, state);
        }
        proof {
            self.lemma_wf_view();
        }
    }

    /// The initial states, each once.
    pub fn get_initial_states(&self) -> (r: &Vec<String>)
        requires
            self.wf(),
        ensures
            names(r@).no_duplicates(),
            name_set(r@) == self@.initial,
    {
        &self.initial_states
    }

    /// The terminal states, each once.
    pub fn get_terminal_states(&self) -> (r: &Vec<String>)
        requires
            self.wf(),
        ensures
            names(r@).no_duplicates(),
            name_set(r@) == self@.terminal,
    {
        &self.terminal_states
    }

    /// The registered states, each once, in the order of their registration.
    pub fn get_states(&self) -> (r: &Vec<String>)
        requires
            self.wf(),
        ensures
            names(r@) == self.state_order(),
            name_set(r@) == self@.states,
            r@.len() == self@.states.len(),
    {
        proof {
            self.lemma_wf_view();
        }
        &self.states
    }

    /// The transitions, each once, in the order of their insertion.
    pub fn get_transitions(&self) -> (r: &Vec<(String, String, String)>)
        requires
            self.wf(),
        ensures
            triples(r@) == self.transition_order(),
            triple_set(r@) == self@.transitions,
            r@.len() == self@.transitions.len(),
    {
        proof {
            self.lemma_wf_view();
        }
        &self.transitions
    }

    /// Inserts the transition `source_state --letter--> dest_state`; a triple
    /// that is already present is not added again. The endpoints need not be
    /// registered states.
    pub fn add_transition(&mut self, source_state: String, letter: String, dest_state: String)
        requires
            old(self).wf(),
        ensures
            final(self).wf(),
            final(self)@.transitions == old(self)@.transitions.insert(
                (source_state@, letter@, dest_state@),
            ),
            final(self)@.states == old(self)@.states,
            final(self)@.initial == old(self)@.initial,
            final(self)@.terminal == old(self)@.terminal,
            final(self).state_order() == old(self).state_order(),
            final(self).transition_order() == if old(self)@.transitions.contains(
                (source_state@, letter@, dest_state@),
            ) {
                old(self).transition_order()
            } else {
                old(self).transition_order().push((source_state@, letter@, dest_state@))
            },
            final(self)@.transitions.len() == if old(self)@.transitions.contains(
                (source_state@, letter@, dest_state@),
            ) {
                old(self)@.transitions.len()
            } else {
                old(self)@.transitions.len() + 1
            },
    {
        proof {
            old(self).lemma_wf_view();
        }
        insert_triple(&mut self.transitions, source_state, letter, dest_state);
        proof {
            self.lemma_wf_view();
        }
    }
}

impl Automata {
    /// All destinations of the transitions that leave `source_state` on
    /// `letter`, each once; `None` where there is none.
    pub fn get_transition(&self, source_state: String, letter: String) -> (r: Option<Vec<String>>)
        requires
            self.wf(),
        ensures
            r is None <==> targets(self@.transitions, source_state@, letter@)
                == Set::<Seq<char>>::empty(),
            r is Some ==> names(r->Some_0@).no_duplicates() && name_set(r->Some_0@) == targets(
                self@.transitions,
                source_state@,
                letter@,
            ),
    {
        let ghost trs = triples(self.transitions@);
        let ghost goal = targets(self@.transitions, source_state@, letter@);
        let mut all_transitions: Vec<String> = Vec::new();
        let mut i: usize = 0;
        while i < self.transitions.len()
            invariant
                i <= self.transitions.len(),
                trs == triples(self.transitions@),
                goal == targets(self@.transitions, source_state@, letter@),
                names(all_transitions@).no_duplicates(),
                forall|d: Seq<char>| #[trigger]
                    name_set(all_transitions@).contains(d) ==> goal.contains(d),
                forall|j: int|
                    0 <= j < i && (#[trigger] trs[j]).0 == source_state@ && trs[j].1 == letter@
                        ==> name_set(all_transitions@).contains(trs[j].2),
            decreases self.transitions.len() - i,
        {
            let transition = &self.transitions[i];
            assert(trs[i as int] == (transition.0@, transition.1@, transition.2@));
            if transition.0 == source_state && transition.1 == letter {
                assert(trs.contains(trs[i as int]));
                insert_name(&mut all_transitions, transition.2.clone());
            }
            i += 1;
        }
        assert forall|d: Seq<char>| goal.contains(d) implies name_set(all_transitions@).contains(
            d,
        ) by {
            let j = choose|j: int| 0 <= j < trs.len() && trs[j] == (source_state@, letter@, d);
            assert(trs[j].0 == source_state@);
        }
        assert(name_set(all_transitions@) =~= goal);
        if all_transitions.len() == 0 {
            assert forall|d: Seq<char>| !goal.contains(d) by {
                if names(all_transitions@).contains(d) {
                    let k = choose|k: int|
                        0 <= k < names(all_transitions@).len() && names(all_transitions@)[k] == d;
                }
            }
            assert(goal =~= Set::<Seq<char>>::empty());
            None
        } else {
            assert(names(all_transitions@)[0] == all_transitions@[0]@);
            assert(names(all_transitions@).contains(all_transitions@[0]@));
            assert(goal.contains(all_transitions@[0]@));
            Some(all_transitions)
        }
    }

    /// The symbols that occur on some transition, each once. A symbol that no
    /// transition carries is not part of the alphabet.
    pub fn alphabet(&self) -> (r: Vec<String>)
        requires
            self.wf(),
        ensures
            names(r@).no_duplicates(),
            name_set(r@) == self@.alphabet(),
    {
        let ghost trs = triples(self.transitions@);
        let mut alphabet: Vec<String> = Vec::new();
        let mut i: usize = 0;
        while i < self.transitions.len()
            invariant
                i <= self.transitions.len(),
                trs == triples(self.transitions@),
                names(alphabet@).no_duplicates(),
                forall|a: Seq<char>| #[trigger]
                    name_set(alphabet@).contains(a) ==> self@.alphabet().contains(a),
                forall|j: int|
                    0 <= j < i ==> name_set(alphabet@).contains((#[trigger] trs[j]).1),
            decreases self.transitions.len() - i,
        {
            let transition = &self.transitions[i];
            assert(trs[i as int] == (transition.0@, transition.1@, transition.2@));
            assert(trs.contains(trs[i as int]));
            assert(self@.transitions.contains((transition.0@, transition.1@, transition.2@)));
            insert_name(&mut alphabet, transition.1.clone());
            i += 1;
        }
        assert forall|a: Seq<char>| self@.alphabet().contains(a) implies name_set(
            alphabet@,
        ).contains(a) by {
            let (q, d) = choose|q: Seq<char>, d: Seq<char>|
                #[trigger] self@.transitions.contains((q, a, d));
            let j = choose|j: int| 0 <= j < trs.len() && trs[j] == (q, a, d);
            assert(trs[j].1 == a);
        }
        assert(name_set(alphabet@) =~= self@.alphabet());
        alphabet
    }

    /// The states reached from some state of `set` by one transition on
    /// `letter`, each once.
    pub fn successors(&self, set: &Vec<String>, letter: String) -> (r: Vec<String>)
        requires
            self.wf(),
        ensures
            names(r@).no_duplicates(),
            name_set(r@) == step(self@.transitions, name_set(set@), letter@),
    {
        let ghost goal = step(self@.transitions, name_set(set@), letter@);
        let mut succs_set: Vec<String> = Vec::new();
        let mut k: usize = 0;
        while k < set.len()
            invariant
                k <= set.len(),
                self.wf(),
                goal == step(self@.transitions, name_set(set@), letter@),
                names(succs_set@).no_duplicates(),
                forall|d: Seq<char>| #[trigger]
                    name_set(succs_set@).contains(d) ==> goal.contains(d),
                forall|j: int, d: Seq<char>|
                    0 <= j < k && #[trigger] self@.transitions.contains((names(set@)[j], letter@, d))
                        ==> name_set(succs_set@).contains(d),
            decreases set.len() - k,
        {
            let ghost q = names(set@)[k as int];
            assert(q == set@[k as int]@);
            assert(names(set@).contains(q));
            assert(name_set(set@).contains(q));
            let ghost before = name_set(succs_set@);
            if let Some(succs) = self.get_transition(set[k].clone(), letter.clone()) {
                merge_names(&mut succs_set, &succs);
                assert forall|d: Seq<char>| #[trigger]
                    name_set(succs_set@).contains(d) implies goal.contains(d) by {
                    if !before.contains(d) {
                        assert(name_set(succs@).contains(d));
                        assert(targets(self@.transitions, q, letter@).contains(d));
                        assert(self@.transitions.contains((q, letter@, d)));
                    }
                }
                assert forall|d: Seq<char>| #[trigger]
                    self@.transitions.contains((q, letter@, d)) implies name_set(
                    succs_set@,
                ).contains(d) by {
                    assert(targets(self@.transitions, q, letter@).contains(d));
                }
            } else {
                assert forall|d: Seq<char>| #[trigger]
                    self@.transitions.contains((q, letter@, d)) implies name_set(
                    succs_set@,
                ).contains(d) by {
                    assert(targets(self@.transitions, q, letter@).contains(d));
                }
            }
            k += 1;
        }
        assert forall|d: Seq<char>| goal.contains(d) implies name_set(succs_set@).contains(d) by {
            let q = choose|q: Seq<char>|
                name_set(set@).contains(q) && #[trigger] self@.transitions.contains(
                    (q, letter@, d),
                );
            let j = choose|j: int| 0 <= j < names(set@).len() && names(set@)[j] == q;
            assert(self@.transitions.contains((names(set@)[j], letter@, d)));
        }
        assert(name_set(succs_set@) =~= goal);
        succs_set
    }

    /// Reads `word` character by character, following every transition that
    /// the live states offer, and accepts where a terminal state is live at
    /// the end. A state without a transition on the character read drops out.
    pub fn accepts(&self, word: String) -> (accepted: bool)
        requires
            self.wf(),
        ensures
            accepted == self@.accepts(symbols(word@)),
    {
        let n = word.as_str().unicode_len();
        let mut successor_states: Vec<String> = copy_names(self.get_initial_states());
        assert(name_set(successor_states@) =~= self@.initial);
        let mut i: usize = 0;
        assert(symbols(word@).take(0).len() == 0);
        while i < n
            invariant
                i <= n,
                n == word@.len(),
                self.wf(),
                name_set(successor_states@) == self@.reach(symbols(word@).take(i as int)),
            decreases n - i,
        {
            let letter = String::from_str(word.as_str().substring_char(i, i + 1));
            proof {
                let read = symbols(word@).take(i + 1);
                assert(read.drop_last() =~= symbols(word@).take(i as int));
                assert(read.last() =~= letter@);
            }
            successor_states = self.successors(&successor_states, letter);
            i += 1;
        }
        assert(symbols(word@).take(n as int) =~= symbols(word@));
        share_name(&successor_states, &self.terminal_states)
    }
}

} // verus!
