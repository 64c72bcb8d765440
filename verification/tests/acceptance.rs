use automata::automata::Automata;

fn s(text: &str) -> String {
    String::from(text)
}

fn two_state() -> Automata {
    let mut a = Automata::new();
    a.add_state(s("0"), true, false);
    a.add_state(s("1"), false, true);
    a.add_transition(s("0"), s("a"), s("0"));
    a.add_transition(s("0"), s("b"), s("1"));
    a
}

fn branching() -> Automata {
    let mut a = Automata::new();
    a.add_state(s("0"), true, false);
    a.add_state(s("B"), false, false);
    a.add_state(s("C"), false, false);
    a.add_state(s("1"), false, true);
    a.add_transition(s("0"), s("a"), s("B"));
    a.add_transition(s("0"), s("a"), s("C"));
    a.add_transition(s("B"), s("b"), s("B"));
    a.add_transition(s("C"), s("c"), s("C"));
    a.add_transition(s("B"), s("a"), s("1"));
    a.add_transition(s("C"), s("a"), s("1"));
    a
}

#[test]
fn new_automaton_is_empty() {
    let a = Automata::new();
    assert!(a.get_states().is_empty());
    assert!(a.get_transitions().is_empty());
    assert!(a.get_initial_states().is_empty());
    assert!(a.get_terminal_states().is_empty());
    assert!(a.alphabet().is_empty());
}

#[test]
fn two_state_rejects_aaa() {
    assert_eq!(two_state().accepts(s("aaa")), false);
}

#[test]
fn two_state_accepts_aaab() {
    assert_eq!(two_state().accepts(s("aaab")), true);
}

#[test]
fn two_state_rejects_ba() {
    assert_eq!(two_state().accepts(s("ba")), false);
}

#[test]
fn branching_accepts_aa() {
    assert_eq!(branching().accepts(s("aa")), true);
}

#[test]
fn branching_follows_both_branches() {
    let a = branching();
    assert_eq!(a.accepts(s("aba")), true);
    assert_eq!(a.accepts(s("aca")), true);
    assert_eq!(a.accepts(s("abca")), false);
    assert_eq!(a.accepts(s("a")), false);
    assert_eq!(a.accepts(s("aaa")), false);
}

#[test]
fn empty_word_rejected_without_initial_terminal_state() {
    assert_eq!(two_state().accepts(s("")), false);
    assert_eq!(branching().accepts(s("")), false);
}

#[test]
fn empty_word_accepted_with_initial_terminal_state() {
    let mut a = Automata::new();
    a.add_state(s("p"), true, false);
    a.add_state(s("q"), true, true);
    assert_eq!(a.accepts(s("")), true);
    assert_eq!(a.determinize().accepts(s("")), true);
}

#[test]
fn empty_automaton_rejects_everything() {
    let a = Automata::new();
    assert_eq!(a.accepts(s("")), false);
    assert_eq!(a.accepts(s("a")), false);
}

#[test]
fn symbol_outside_alphabet_rejects() {
    assert_eq!(two_state().accepts(s("az")), false);
    assert_eq!(two_state().accepts(s("zb")), false);
}

#[test]
fn word_of_wide_characters() {
    let mut a = Automata::new();
    a.add_state(s("0"), true, false);
    a.add_state(s("1"), false, true);
    a.add_transition(s("0"), s("é"), s("1"));
    assert_eq!(a.accepts(s("é")), true);
    assert_eq!(a.accepts(s("e")), false);
    assert_eq!(a.accepts(s("éé")), false);
}

#[test]
fn multi_character_symbol_is_never_read() {
    let mut a = Automata::new();
    a.add_state(s("0"), true, false);
    a.add_state(s("1"), false, true);
    a.add_transition(s("0"), s("ab"), s("1"));
    assert_eq!(a.accepts(s("ab")), false);
}

#[test]
fn get_transition_returns_every_destination() {
    let a = branching();
    let mut found = a.get_transition(s("0"), s("a")).unwrap();
    found.sort();
    assert_eq!(found, vec![s("B"), s("C")]);
    assert_eq!(a.get_transition(s("B"), s("a")), Some(vec![s("1")]));
}

#[test]
fn get_transition_none_without_match() {
    let a = branching();
    assert_eq!(a.get_transition(s("0"), s("b")), None);
    assert_eq!(a.get_transition(s("1"), s("a")), None);
    assert_eq!(a.get_transition(s("nowhere"), s("a")), None);
}

#[test]
fn successors_unites_and_deduplicates() {
    let a = branching();
    let set = vec![s("B"), s("C")];
    assert_eq!(a.successors(&set, s("a")), vec![s("1")]);
    assert_eq!(a.successors(&set, s("b")), vec![s("B")]);
    assert_eq!(a.successors(&set, s("z")), Vec::<String>::new());
    assert_eq!(a.successors(&Vec::new(), s("a")), Vec::<String>::new());
    let mut from_start = a.successors(&vec![s("0"), s("0")], s("a"));
    from_start.sort();
    assert_eq!(from_start, vec![s("B"), s("C")]);
}

#[test]
fn alphabet_lists_each_symbol_once() {
    let mut letters = branching().alphabet();
    letters.sort();
    assert_eq!(letters, vec![s("a"), s("b"), s("c")]);
    let mut two = two_state().alphabet();
    two.sort();
    assert_eq!(two, vec![s("a"), s("b")]);
}

#[test]
fn initial_and_terminal_accessors_are_independent() {
    let a = two_state();
    assert_eq!(a.get_initial_states(), &vec![s("0")]);
    assert_eq!(a.get_terminal_states(), &vec![s("1")]);
    assert_ne!(a.get_initial_states(), a.get_terminal_states());
}

#[test]
fn state_may_be_initial_and_terminal() {
    let mut a = Automata::new();
    a.add_state(s("x"), true, true);
    assert_eq!(a.get_initial_states(), &vec![s("x")]);
    assert_eq!(a.get_terminal_states(), &vec![s("x")]);
    assert_eq!(a.get_states(), &vec![s("x")]);
}

#[test]
fn adding_a_state_twice_keeps_the_size() {
    let mut a = two_state();
    assert_eq!(a.get_states().len(), 2);
    a.add_state(s("0"), true, false);
    a.add_state(s("1"), false, true);
    assert_eq!(a.get_states().len(), 2);
    assert_eq!(a.get_initial_states().len(), 1);
    assert_eq!(a.get_terminal_states().len(), 1);
    a.add_state(s("2"), false, false);
    assert_eq!(a.get_states().len(), 3);
}

#[test]
fn adding_a_transition_twice_keeps_the_size() {
    let mut a = two_state();
    assert_eq!(a.get_transitions().len(), 2);
    a.add_transition(s("0"), s("a"), s("0"));
    a.add_transition(s("0"), s("b"), s("1"));
    assert_eq!(a.get_transitions().len(), 2);
    a.add_transition(s("0"), s("a"), s("1"));
    assert_eq!(a.get_transitions().len(), 3);
}

#[test]
fn flags_are_added_and_never_cleared() {
    let mut a = Automata::new();
    a.add_state(s("x"), true, true);
    a.add_state(s("x"), false, false);
    assert_eq!(a.get_initial_states(), &vec![s("x")]);
    assert_eq!(a.get_terminal_states(), &vec![s("x")]);
    a.add_state(s("y"), false, false);
    a.add_state(s("y"), false, true);
    assert_eq!(a.get_terminal_states(), &vec![s("x"), s("y")]);
    assert_eq!(a.get_initial_states(), &vec![s("x")]);
}

#[test]
fn transition_to_unregistered_state_is_tolerated() {
    let mut a = Automata::new();
    a.add_state(s("0"), true, false);
    a.add_transition(s("0"), s("a"), s("ghost"));
    a.add_transition(s("ghost"), s("b"), s("0"));
    assert_eq!(a.get_states(), &vec![s("0")]);
    assert_eq!(a.get_transition(s("0"), s("a")), Some(vec![s("ghost")]));
    assert_eq!(a.accepts(s("ab")), false);
    a.add_state(s("0"), false, true);
    assert_eq!(a.accepts(s("ab")), true);
    assert_eq!(a.determinize().accepts(s("ab")), true);
    assert_eq!(a.determinize().accepts(s("a")), false);
    assert_eq!(a.support(), vec![s("0"), s("ghost")]);
}
