//! What holds of every subset construction: it is deterministic, it
//! recognizes the same words, and a second construction only renames.

use vstd::prelude::*;
use crate::model::{AutomataView, step, renamed_by};
use crate::automata::Automata;
use crate::determinize::lemma_extend_members;

verus! {

impl Automata {
    /// The subset construction is deterministic: no state has two
    /// transitions on one symbol.
    pub proof fn lemma_determinized_deterministic(&self, d: AutomataView)
        requires
            self.wf(),
            self.determinizes_to(d),
        ensures
            d.deterministic(),
    {
        assert forall|q: Seq<char>, a: Seq<char>, d1: Seq<char>, d2: Seq<char>|
            #[trigger] d.transitions.contains((q, a, d1)) && #[trigger] d.transitions.contains(
                (q, a, d2),
            ) implies d1 == d2 by {
            let v = choose|v: Seq<Seq<char>>| self.names_arc(v, (q, a, d1));
            let w = choose|w: Seq<Seq<char>>| self.names_arc(w, (q, a, d2));
            self.lemma_state_for_canonical(v, w);
            self@.lemma_reach_push(v, a);
            self@.lemma_reach_push(w, a);
        }
    }

    /// In the subset construction a live word leads to exactly one state, the
    /// merged state of its state-set, and any other word leads nowhere.
    pub proof fn lemma_determinized_reach(&self, d: AutomataView, word: Seq<Seq<char>>)
        requires
            self.wf(),
            self.determinizes_to(d),
        ensures
            d.reach(word) == if self@.live(word) {
                set![self.state_for(word)]
            } else {
                Set::<Seq<char>>::empty()
            },
        decreases word.len(),
    {
        if word.len() == 0 {
            assert(word =~= Seq::<Seq<char>>::empty());
        } else {
            let front = word.drop_last();
            let a = word.last();
            assert(word =~= front.push(a));
            self.lemma_determinized_reach(d, front);
            self@.lemma_reach_push(front, a);
            d.lemma_reach_push(front, a);
            let got = step(d.transitions, d.reach(front), a);
            assert forall|x: Seq<char>| got.contains(x) implies self@.live(word) && x
                == self.state_for(word) by {
                let q = choose|q: Seq<char>|
                    d.reach(front).contains(q) && #[trigger] d.transitions.contains((q, a, x));
                assert(self@.live(front));
                assert(q == self.state_for(front));
                let v = choose|v: Seq<Seq<char>>| self.names_arc(v, (q, a, x));
                self.lemma_state_for_canonical(v, front);
                self@.lemma_reach_push(v, a);
            }
            if self@.live(word) {
                let t = (self.state_for(front), a, self.state_for(word));
                assert(self.names_arc(front, t));
                assert(d.transitions.contains(t));
                assert(d.reach(front).contains(self.state_for(front)));
                assert(got.contains(self.state_for(word)));
                assert(got =~= set![self.state_for(word)]);
            } else {
                assert(got =~= Set::<Seq<char>>::empty());
            }
        }
    }

    /// The subset construction recognizes the same words: it accepts a word
    /// exactly where this automaton does.
    pub proof fn lemma_language_preserved(&self, d: AutomataView, word: Seq<Seq<char>>)
        requires
            self.wf(),
            self.determinizes_to(d),
        ensures
            d.accepts(word) == self@.accepts(word),
    {
        self.lemma_determinized_reach(d, word);
        let q = self.state_for(word);
        if self@.live(word) {
            assert(d.reach(word).contains(q));
            if d.accepts(word) {
                assert(d.terminal.contains(q));
                let v = choose|v: Seq<Seq<char>>| self.names_terminal(v, q);
                self.lemma_state_for_canonical(v, word);
            }
            if self@.accepts(word) {
                assert(self.names_terminal(word, q));
                assert(d.terminal.contains(q));
            }
        }
    }

    /// The name that a second subset construction gives to a single state.
    pub open spec fn merged_singleton(&self) -> spec_fn(Seq<char>) -> Seq<char> {
        |q: Seq<char>| self.label_of(set![q])
    }

    /// Every registered state is a name of `support_order`.
    pub proof fn lemma_states_in_support(&self)
        requires
            self.wf(),
        ensures
            forall|q: Seq<char>| self@.states.contains(q) ==> self.support_order().contains(q),
    {
        self.lemma_wf_view();
        lemma_extend_members(self.state_order(), self.transition_order());
        assert forall|q: Seq<char>| self@.states.contains(q) implies self.support_order().contains(
            q,
        ) by {
            assert(self.state_order().contains(q));
        }
    }

    /// A word is live in the subset construction `first` exactly where it is
    /// live here, and a second construction then merges the single state
    /// that the word leads to in `first`.
    pub proof fn lemma_determinized_word(&self, first: &Automata, word: Seq<Seq<char>>)
        requires
            self.wf(),
            first.wf(),
            self.determinizes_to(first@),
        ensures
            first@.live(word) == self@.live(word),
            first@.accepts(word) == self@.accepts(word),
            self@.live(word) ==> first@.reach(word) == set![self.state_for(word)],
            self@.live(word) ==> first.state_for(word) == (first.merged_singleton())(
                self.state_for(word),
            ),
    {
        self.lemma_determinized_reach(first@, word);
        self.lemma_language_preserved(first@, word);
        if self@.live(word) {
            assert(first@.reach(word).contains(self.state_for(word)));
        }
    }

    /// Determinizing twice changes nothing but the names: the second subset
    /// construction is the first with each state renamed to the merged name
    /// of that state alone.
    pub proof fn lemma_redeterminize_renames(&self, first: &Automata, second: AutomataView)
        requires
            self.wf(),
            first.wf(),
            self.determinizes_to(first@),
            first.determinizes_to(second),
        ensures
            renamed_by(first@, second, first.merged_singleton()),
    {
        let f = first.merged_singleton();
        let a = first@;
        first.lemma_states_in_support();
        assert forall|p: Seq<char>, q: Seq<char>|
            #![trigger f(p), f(q)]
            a.states.contains(p) && a.states.contains(q) && f(p) == f(q) implies p == q by {
            first.lemma_label_canonical(set![p], set![q]);
            assert(set![p].contains(p));
        }
        assert forall|q: Seq<char>| #[trigger]
            second.states.contains(q) <==> exists|p: Seq<char>| #[trigger]
                a.states.contains(p) && q == f(p) by {
            if second.states.contains(q) {
                let w = choose|w: Seq<Seq<char>>| first.names_state(w, q);
                self.lemma_determinized_word(first, w);
                assert(self.names_state(w, self.state_for(w)));
                assert(a.states.contains(self.state_for(w)));
            }
            if exists|p: Seq<char>| #[trigger] a.states.contains(p) && q == f(p) {
                let p = choose|p: Seq<char>| #[trigger] a.states.contains(p) && q == f(p);
                let w = choose|w: Seq<Seq<char>>| self.names_state(w, p);
                self.lemma_determinized_word(first, w);
                assert(first.names_state(w, q));
            }
        }
        assert forall|q: Seq<char>| #[trigger]
            second.initial.contains(q) <==> exists|p: Seq<char>| #[trigger]
                a.initial.contains(p) && q == f(p) by {
            let w = Seq::<Seq<char>>::empty();
            self.lemma_determinized_word(first, w);
            let p0 = self.state_for(w);
            assert(a.initial.contains(p0));
            if exists|p: Seq<char>| #[trigger] a.initial.contains(p) && q == f(p) {
                let p = choose|p: Seq<char>| #[trigger] a.initial.contains(p) && q == f(p);
                assert(p == p0);
            }
        }
        assert forall|q: Seq<char>| #[trigger]
            second.terminal.contains(q) <==> exists|p: Seq<char>| #[trigger]
                a.terminal.contains(p) && q == f(p) by {
            if second.terminal.contains(q) {
                let w = choose|w: Seq<Seq<char>>| first.names_terminal(w, q);
                self.lemma_determinized_word(first, w);
                assert(self.names_terminal(w, self.state_for(w)));
                assert(a.terminal.contains(self.state_for(w)));
            }
            if exists|p: Seq<char>| #[trigger] a.terminal.contains(p) && q == f(p) {
                let p = choose|p: Seq<char>| #[trigger] a.terminal.contains(p) && q == f(p);
                let w = choose|w: Seq<Seq<char>>| self.names_terminal(w, p);
                self.lemma_determinized_word(first, w);
                assert(first.names_terminal(w, q));
            }
        }
        assert forall|t: (Seq<char>, Seq<char>, Seq<char>)| #[trigger]
            second.transitions.contains(t) <==> exists|s: (Seq<char>, Seq<char>, Seq<char>)|
                #[trigger] a.transitions.contains(s) && t == (f(s.0), s.1, f(s.2)) by {
            if second.transitions.contains(t) {
                let w = choose|w: Seq<Seq<char>>| first.names_arc(w, t);
                let longer = w.push(t.1);
                self.lemma_determinized_word(first, w);
                self.lemma_determinized_word(first, longer);
                self@.lemma_reach_push(w, t.1);
                let s = (self.state_for(w), t.1, self.state_for(longer));
                assert(self.names_arc(w, s));
                assert(a.transitions.contains(s));
                assert(t == (f(s.0), s.1, f(s.2)));
            }
            if exists|s: (Seq<char>, Seq<char>, Seq<char>)| #[trigger]
                a.transitions.contains(s) && t == (f(s.0), s.1, f(s.2)) {
                let s = choose|s: (Seq<char>, Seq<char>, Seq<char>)| #[trigger]
                    a.transitions.contains(s) && t == (f(s.0), s.1, f(s.2));
                let w = choose|w: Seq<Seq<char>>| self.names_arc(w, s);
                let longer = w.push(s.1);
                self.lemma_determinized_word(first, w);
                self.lemma_determinized_word(first, longer);
                self@.lemma_reach_push(w, s.1);
                assert(first.names_arc(w, t));
            }
        }
    }
}

} // verus!
