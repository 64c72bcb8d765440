//! The mathematical model: an automaton as four sets, and the language it
//! recognizes.

use vstd::prelude::*;

verus! {

/// An automaton seen as plain sets of state names and transition triples
/// `(source, symbol, destination)`.
pub struct AutomataView {
    pub states: Set<Seq<char>>,
    pub transitions: Set<(Seq<char>, Seq<char>, Seq<char>)>,
    pub initial: Set<Seq<char>>,
    pub terminal: Set<Seq<char>>,
}

/// Every state reachable from some state of `from` by one transition on `symbol`.
pub open spec fn step(
    delta: Set<(Seq<char>, Seq<char>, Seq<char>)>,
    from: Set<Seq<char>>,
    symbol: Seq<char>,
) -> Set<Seq<char>> {
    Set::new(
        |d: Seq<char>|
            exists|q: Seq<char>| from.contains(q) && #[trigger] delta.contains((q, symbol, d)),
    )
}

/// Every destination of a transition that leaves `source` on `symbol`.
pub open spec fn targets(
    delta: Set<(Seq<char>, Seq<char>, Seq<char>)>,
    source: Seq<char>,
    symbol: Seq<char>,
) -> Set<Seq<char>> {
    Set::new(|d: Seq<char>| delta.contains((source, symbol, d)))
}

/// The live state-set after reading `word` symbol by symbol, starting from `from`.
pub open spec fn run(
    delta: Set<(Seq<char>, Seq<char>, Seq<char>)>,
    from: Set<Seq<char>>,
    word: Seq<Seq<char>>,
) -> Set<Seq<char>>
    decreases word.len(),
{
    if word.len() == 0 {
        from
    } else {
        step(delta, run(delta, from, word.drop_last()), word.last())
    }
}

/// The two sets share a member.
pub open spec fn meets(a: Set<Seq<char>>, b: Set<Seq<char>>) -> bool {
    exists|q: Seq<char>| #[trigger] a.contains(q) && b.contains(q)
}

/// The set has a member.
pub open spec fn inhabited(s: Set<Seq<char>>) -> bool {
    exists|q: Seq<char>| s.contains(q)
}

/// `b` is `a` with every state `p` renamed to `f(p)`: different states get
/// different names, and the states, the initial and terminal marks and the
/// transitions of `b` are exactly the renamed ones of `a`.
pub open spec fn renamed_by(
    a: AutomataView,
    b: AutomataView,
    f: spec_fn(Seq<char>) -> Seq<char>,
) -> bool {
    &&& forall|p: Seq<char>, q: Seq<char>|
        #![trigger f(p), f(q)]
        a.states.contains(p) && a.states.contains(q) && f(p) == f(q) ==> p == q
    &&& forall|q: Seq<char>| #[trigger]
        b.states.contains(q) <==> exists|p: Seq<char>| #[trigger] a.states.contains(p) && q == f(p)
    &&& forall|q: Seq<char>| #[trigger]
        b.initial.contains(q) <==> exists|p: Seq<char>| #[trigger]
            a.initial.contains(p) && q == f(p)
    &&& forall|q: Seq<char>| #[trigger]
        b.terminal.contains(q) <==> exists|p: Seq<char>| #[trigger]
            a.terminal.contains(p) && q == f(p)
    &&& forall|t: (Seq<char>, Seq<char>, Seq<char>)| #[trigger]
        b.transitions.contains(t) <==> exists|s: (Seq<char>, Seq<char>, Seq<char>)| #[trigger]
            a.transitions.contains(s) && t == (f(s.0), s.1, f(s.2))
}

/// A word of characters as a word of one-character symbols.
pub open spec fn symbols(word: Seq<char>) -> Seq<Seq<char>> {
    word.map_values(|c: char| seq![c])
}

impl AutomataView {
    /// The live state-set after reading `word` from the initial states.
    pub open spec fn reach(self, word: Seq<Seq<char>>) -> Set<Seq<char>> {
        run(self.transitions, self.initial, word)
    }

    /// The word is empty, or some run over it stays alive to its end.
    pub open spec fn live(self, word: Seq<Seq<char>>) -> bool {
        word.len() == 0 || inhabited(self.reach(word))
    }

    /// Reading one more symbol is one more step, and a run that is alive
    /// after it was alive before it.
    pub proof fn lemma_reach_push(self, word: Seq<Seq<char>>, symbol: Seq<char>)
        ensures
            self.reach(word.push(symbol)) == step(self.transitions, self.reach(word), symbol),
            self.live(word.push(symbol)) ==> self.live(word),
            self.live(word.push(symbol)) <==> inhabited(
                step(self.transitions, self.reach(word), symbol),
            ),
            inhabited(step(self.transitions, self.reach(word), symbol)) ==> self.alphabet().contains(
                symbol,
            ),
    {
        let longer = word.push(symbol);
        assert(longer.drop_last() =~= word);
        assert(longer.last() == symbol);
        let next = step(self.transitions, self.reach(word), symbol);
        if inhabited(next) {
            let d = choose|d: Seq<char>| next.contains(d);
            let q = choose|q: Seq<char>|
                self.reach(word).contains(q) && #[trigger] self.transitions.contains(
                    (q, symbol, d),
                );
            assert(inhabited(self.reach(word)));
        }
    }

    /// Some run over `word` ends in a terminal state.
    pub open spec fn accepts(self, word: Seq<Seq<char>>) -> bool {
        meets(self.reach(word), self.terminal)
    }

    /// The symbols that occur on some transition.
    pub open spec fn alphabet(self) -> Set<Seq<char>> {
        Set::new(
            |a: Seq<char>|
                exists|q: Seq<char>, d: Seq<char>| #[trigger] self.transitions.contains((q, a, d)),
        )
    }

    /// At most one destination per (state, symbol) pair.
    pub open spec fn deterministic(self) -> bool {
        forall|q: Seq<char>, a: Seq<char>, d1: Seq<char>, d2: Seq<char>|
            #[trigger] self.transitions.contains((q, a, d1)) && #[trigger] self.transitions.contains(
                (q, a, d2),
            ) ==> d1 == d2
    }
}

impl AutomataView {
    /// `path` is a run over `word`: it starts in an initial state and moves
    /// by one transition for each symbol.
    pub open spec fn is_run(self, path: Seq<Seq<char>>, word: Seq<Seq<char>>) -> bool {
        &&& path.len() == word.len() + 1
        &&& self.initial.contains(path[0])
        &&& forall|i: int|
            0 <= i < word.len() ==> self.transitions.contains(
                (path[i], #[trigger] word[i], path[i + 1]),
            )
    }

    /// A state is live after `word` exactly where some run over `word` ends
    /// in it.
    pub proof fn lemma_reach_is_some_run(self, word: Seq<Seq<char>>, q: Seq<char>)
        ensures
            self.reach(word).contains(q) <==> exists|path: Seq<Seq<char>>|
                self.is_run(path, word) && path.last() == q,
        decreases word.len(),
    {
        if word.len() == 0 {
            if self.reach(word).contains(q) {
                let path = seq![q];
                assert(self.is_run(path, word) && path.last() == q);
            }
        } else {
            let front = word.drop_last();
            let a = word.last();
            if self.reach(word).contains(q) {
                let p = choose|p: Seq<char>|
                    self.reach(front).contains(p) && #[trigger] self.transitions.contains(
                        (p, a, q),
                    );
                self.lemma_reach_is_some_run(front, p);
                let shorter = choose|path: Seq<Seq<char>>|
                    self.is_run(path, front) && path.last() == p;
                let path = shorter.push(q);
                assert forall|i: int| 0 <= i < word.len() implies self.transitions.contains(
                    (path[i], #[trigger] word[i], path[i + 1]),
                ) by {
                    if i < front.len() {
                        assert(front[i] == word[i]);
                    }
                }
                assert(self.is_run(path, word) && path.last() == q);
            }
            if exists|path: Seq<Seq<char>>| self.is_run(path, word) && path.last() == q {
                let path = choose|path: Seq<Seq<char>>| self.is_run(path, word) && path.last() == q;
                let shorter = path.drop_last();
                let p = shorter.last();
                assert forall|i: int| 0 <= i < front.len() implies self.transitions.contains(
                    (shorter[i], #[trigger] front[i], shorter[i + 1]),
                ) by {
                    assert(front[i] == word[i]);
                }
                assert(self.is_run(shorter, front) && shorter.last() == p);
                self.lemma_reach_is_some_run(front, p);
                assert(word[word.len() - 1] == a);
                assert(self.transitions.contains((p, a, q)));
            }
        }
    }

    /// A word is accepted exactly where some run over it ends in a terminal
    /// state.
    pub proof fn lemma_accepts_is_some_run(self, word: Seq<Seq<char>>)
        ensures
            self.accepts(word) <==> exists|path: Seq<Seq<char>>|
                self.is_run(path, word) && self.terminal.contains(path.last()),
    {
        if self.accepts(word) {
            let q = choose|q: Seq<char>| #[trigger]
                self.reach(word).contains(q) && self.terminal.contains(q);
            self.lemma_reach_is_some_run(word, q);
            let path = choose|path: Seq<Seq<char>>| self.is_run(path, word) && path.last() == q;
            assert(self.is_run(path, word) && self.terminal.contains(path.last()));
        }
        if exists|path: Seq<Seq<char>>|
            self.is_run(path, word) && self.terminal.contains(path.last()) {
            let path = choose|path: Seq<Seq<char>>|
                self.is_run(path, word) && self.terminal.contains(path.last());
            self.lemma_reach_is_some_run(word, path.last());
            assert(self.reach(word).contains(path.last()));
        }
    }
}

} // verus!
