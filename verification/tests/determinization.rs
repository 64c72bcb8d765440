use automata::automata::Automata;
use automata::label::{make_label, pick_names};

fn s(text: &str) -> String {
    String::from(text)
}

fn sample() -> Automata {
    let mut a = Automata::new();
    a.add_state(s("0"), true, false);
    a.add_state(s("B"), false, false);
    a.add_state(s("C"), false, false);
    a.add_state(s("1"), false, true);
    a.add_transition(s("0"), s("a"), s("B"));
    a.add_transition(s("0"), s("a"), s("C"));
    a.add_transition(s("B"), s("b"), s("B"));
    a.add_transition(s("C"), s("c"), s("C"));
    a.add_transition(s("B"), s("a"), s("1"));
    a.add_transition(s("C"), s("a"), s("1"));
    a
}

fn words(letters: &[char], max_len: usize) -> Vec<String> {
    let mut all = vec![String::new()];
    let mut last = vec![String::new()];
    for _ in 0..max_len {
        let mut next = Vec::new();
        for w in &last {
            for c in letters {
                let mut longer = w.clone();
                longer.push(*c);
                next.push(longer);
            }
        }
        all.extend(next.iter().cloned());
        last = next;
    }
    all
}

fn is_deterministic(a: &Automata) -> bool {
    let letters = a.alphabet();
    for state in a.get_states() {
        for letter in &letters {
            if let Some(found) = a.get_transition(state.clone(), letter.clone()) {
                if found.len() != 1 {
                    return false;
                }
            }
        }
    }
    true
}

#[test]
fn sample_determinized_accepts_aa() {
    let nfa = sample();
    assert!(nfa.accepts(s("aa")));
    assert!(nfa.determinize().accepts(s("aa")));
}

#[test]
fn sample_merged_pair_has_one_transition_on_a() {
    let nfa = sample();
    let dfa = nfa.determinize();
    let pair = nfa.merged_label(&vec![s("B"), s("C")]);
    let one = nfa.merged_label(&vec![s("1")]);
    assert_eq!(dfa.get_transition(pair, s("a")), Some(vec![one]));
}

#[test]
fn sample_determinized_exact_shape() {
    let dfa = sample().determinize();
    assert_eq!(
        dfa.get_states(),
        &vec![s("0,"), s("B,C,"), s("1,"), s("B,"), s("C,")]
    );
    assert_eq!(dfa.get_initial_states(), &vec![s("0,")]);
    assert_eq!(dfa.get_terminal_states(), &vec![s("1,")]);
    let mut arcs = dfa.get_transitions().clone();
    arcs.sort();
    let mut expected = vec![
        (s("0,"), s("a"), s("B,C,")),
        (s("B,C,"), s("a"), s("1,")),
        (s("B,C,"), s("b"), s("B,")),
        (s("B,C,"), s("c"), s("C,")),
        (s("B,"), s("a"), s("1,")),
        (s("B,"), s("b"), s("B,")),
        (s("C,"), s("a"), s("1,")),
        (s("C,"), s("c"), s("C,")),
    ];
    expected.sort();
    assert_eq!(arcs, expected);
}

#[test]
fn determinized_sample_is_deterministic() {
    let nfa = sample();
    assert!(!is_deterministic(&nfa));
    assert!(is_deterministic(&nfa.determinize()));
}

#[test]
fn determinized_sample_has_one_initial_state() {
    let nfa = sample();
    let dfa = nfa.determinize();
    assert_eq!(dfa.get_initial_states(), &vec![nfa.merged_label(&vec![s("0")])]);
}

#[test]
fn determinized_sample_recognizes_the_same_words() {
    let nfa = sample();
    let dfa = nfa.determinize();
    for w in words(&['a', 'b', 'c'], 5) {
        assert_eq!(nfa.accepts(w.clone()), dfa.accepts(w.clone()), "word {:?}", w);
    }
}

#[test]
fn several_initial_states_merge_into_one() {
    let mut nfa = Automata::new();
    nfa.add_state(s("p"), true, false);
    nfa.add_state(s("q"), true, false);
    nfa.add_state(s("r"), false, true);
    nfa.add_transition(s("p"), s("a"), s("q"));
    nfa.add_transition(s("q"), s("b"), s("r"));
    nfa.add_transition(s("r"), s("a"), s("p"));
    nfa.add_transition(s("r"), s("a"), s("r"));
    let dfa = nfa.determinize();
    assert_eq!(dfa.get_initial_states(), &vec![s("p,q,")]);
    assert!(is_deterministic(&dfa));
    for w in words(&['a', 'b'], 6) {
        assert_eq!(nfa.accepts(w.clone()), dfa.accepts(w.clone()), "word {:?}", w);
    }
}

#[test]
fn merged_state_is_terminal_where_a_member_is() {
    let mut nfa = Automata::new();
    nfa.add_state(s("0"), true, false);
    nfa.add_state(s("x"), false, false);
    nfa.add_state(s("y"), false, true);
    nfa.add_transition(s("0"), s("a"), s("x"));
    nfa.add_transition(s("0"), s("a"), s("y"));
    let dfa = nfa.determinize();
    assert_eq!(dfa.get_terminal_states(), &vec![s("x,y,")]);
    assert!(dfa.accepts(s("a")));
}

#[test]
fn initial_merged_state_is_terminal_where_an_initial_state_is() {
    let mut nfa = Automata::new();
    nfa.add_state(s("p"), true, false);
    nfa.add_state(s("q"), true, true);
    let dfa = nfa.determinize();
    assert_eq!(dfa.get_states(), &vec![s("p,q,")]);
    assert_eq!(dfa.get_terminal_states(), &vec![s("p,q,")]);
    assert!(dfa.get_transitions().is_empty());
}

#[test]
fn no_initial_state_gives_one_dead_state() {
    let mut nfa = Automata::new();
    nfa.add_state(s("x"), false, true);
    nfa.add_transition(s("x"), s("a"), s("x"));
    let dfa = nfa.determinize();
    assert_eq!(dfa.get_states(), &vec![s("")]);
    assert_eq!(dfa.get_initial_states(), &vec![s("")]);
    assert!(dfa.get_terminal_states().is_empty());
    assert!(dfa.get_transitions().is_empty());
    assert!(!dfa.accepts(s("")));
    assert!(!dfa.accepts(s("a")));
}

#[test]
fn empty_automaton_determinizes_to_one_dead_state() {
    let dfa = Automata::new().determinize();
    assert_eq!(dfa.get_states().len(), 1);
    assert!(dfa.get_transitions().is_empty());
    assert!(!dfa.accepts(s("")));
}

#[test]
fn merged_label_ignores_order_and_repetition() {
    let nfa = sample();
    let bc = nfa.merged_label(&vec![s("B"), s("C")]);
    let cb = nfa.merged_label(&vec![s("C"), s("B")]);
    let cbb = nfa.merged_label(&vec![s("C"), s("B"), s("B")]);
    assert_eq!(bc, s("B,C,"));
    assert_eq!(bc, cb);
    assert_eq!(bc, cbb);
    assert_ne!(bc, nfa.merged_label(&vec![s("B")]));
    assert_ne!(bc, nfa.merged_label(&vec![s("B"), s("C"), s("1")]));
}

#[test]
fn same_set_found_on_two_paths_is_one_state() {
    let mut nfa = Automata::new();
    nfa.add_state(s("0"), true, false);
    nfa.add_state(s("x"), false, false);
    nfa.add_state(s("y"), false, true);
    nfa.add_state(s("m"), false, false);
    nfa.add_transition(s("0"), s("a"), s("x"));
    nfa.add_transition(s("0"), s("a"), s("y"));
    nfa.add_transition(s("0"), s("b"), s("m"));
    nfa.add_transition(s("m"), s("a"), s("y"));
    nfa.add_transition(s("m"), s("a"), s("x"));
    let dfa = nfa.determinize();
    assert_eq!(dfa.get_states(), &vec![s("0,"), s("x,y,"), s("m,")]);
    assert_eq!(dfa.get_transition(s("0,"), s("a")), Some(vec![s("x,y,")]));
    assert_eq!(dfa.get_transition(s("m,"), s("a")), Some(vec![s("x,y,")]));
    assert!(is_deterministic(&dfa));
}

#[test]
fn merged_label_quotes_commas_and_backslashes() {
    let mut nfa = Automata::new();
    nfa.add_state(s("a,b"), true, false);
    nfa.add_state(s("a"), true, false);
    nfa.add_state(s("b"), false, false);
    nfa.add_state(s("x\\"), false, false);
    assert_eq!(nfa.merged_label(&vec![s("a,b")]), s("a,\\b,"));
    assert_eq!(nfa.merged_label(&vec![s("a"), s("b")]), s("a,b,"));
    assert_eq!(nfa.merged_label(&vec![s("x\\")]), s("x\\\\,"));
    assert_eq!(nfa.merged_label(&Vec::new()), s(""));
    assert_eq!(nfa.merged_label(&vec![s("unknown")]), s(""));
}

#[test]
fn make_label_and_pick_names_exact() {
    let order = vec![s("0"), s("B"), s("C"), s("1")];
    let picked = pick_names(&order, &vec![s("1"), s("B"), s("zz")]);
    assert_eq!(picked, vec![s("B"), s("1")]);
    assert_eq!(make_label(&picked), s("B,1,"));
    assert_eq!(make_label(&vec![s("")]), s(","));
    assert_eq!(make_label(&vec![s(""), s("")]), s(",,"));
}

#[test]
fn redeterminizing_keeps_the_shape() {
    let once = sample().determinize();
    let twice = once.determinize();
    assert_eq!(once.get_states().len(), twice.get_states().len());
    assert_eq!(once.get_transitions().len(), twice.get_transitions().len());
    assert_eq!(once.get_initial_states().len(), twice.get_initial_states().len());
    assert_eq!(once.get_terminal_states().len(), twice.get_terminal_states().len());
    for state in once.get_states() {
        let renamed = once.merged_label(&vec![state.clone()]);
        assert!(twice.get_states().contains(&renamed));
        assert_eq!(
            once.get_terminal_states().contains(state),
            twice.get_terminal_states().contains(&renamed)
        );
    }
    for (source, letter, dest) in once.get_transitions() {
        let renamed = (
            once.merged_label(&vec![source.clone()]),
            letter.clone(),
            once.merged_label(&vec![dest.clone()]),
        );
        assert!(twice.get_transitions().contains(&renamed));
    }
    assert!(is_deterministic(&twice));
    for w in words(&['a', 'b', 'c'], 4) {
        assert_eq!(once.accepts(w.clone()), twice.accepts(w.clone()));
    }
}

#[test]
fn determinize_leaves_the_source_unchanged() {
    let nfa = sample();
    let _ = nfa.determinize();
    assert_eq!(nfa.get_states().len(), 4);
    assert_eq!(nfa.get_transitions().len(), 6);
    assert_eq!(nfa.support(), vec![s("0"), s("B"), s("C"), s("1")]);
}

#[test]
fn exponential_family_stays_equivalent() {
    let mut nfa = Automata::new();
    nfa.add_state(s("q0"), true, false);
    nfa.add_state(s("q1"), false, false);
    nfa.add_state(s("q2"), false, false);
    nfa.add_state(s("q3"), false, true);
    nfa.add_transition(s("q0"), s("a"), s("q0"));
    nfa.add_transition(s("q0"), s("b"), s("q0"));
    nfa.add_transition(s("q0"), s("a"), s("q1"));
    nfa.add_transition(s("q1"), s("a"), s("q2"));
    nfa.add_transition(s("q1"), s("b"), s("q2"));
    nfa.add_transition(s("q2"), s("a"), s("q3"));
    nfa.add_transition(s("q2"), s("b"), s("q3"));
    let dfa = nfa.determinize();
    assert_eq!(dfa.get_states().len(), 8);
    assert!(is_deterministic(&dfa));
    for w in words(&['a', 'b'], 7) {
        assert_eq!(nfa.accepts(w.clone()), dfa.accepts(w.clone()), "word {:?}", w);
    }
}
