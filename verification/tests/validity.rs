use fsm::dfa::Dfa;
use fsm::dot_generator::make_nfa_dot;
use fsm::parser::{
    from_yaml, Fsm, YamlDFA, YamlKeyword, YamlStateProps, YamlSymbolSpecifier,
    YamlTransitionMapping, YamlTransitionOn,
};
use fsm::regex_parser::from_regex;

fn compiled(pattern: &str) -> (fsm::parser::Nfa, Dfa) {
    match from_regex(pattern).unwrap() {
        Fsm::Nfa { nfa, dfa } => (nfa, dfa),
        Fsm::Dfa(_) => panic!("a nondeterministic automaton was expected"),
    }
}

#[test]
fn constructed_automata_are_well_formed() {
    for pattern in ["a", "a*", "(a|b)*abb", "(ab)^3", "a?b+"] {
        let (nfa, dfa) = compiled(pattern);
        assert!(nfa.is_well_formed());
        assert!(dfa.is_well_formed());
        assert!(dfa.has_keys());
        let n = dfa.accept_states.len();
        assert_eq!(dfa.transition_table.len(), n * dfa.alphabet.len());
        assert_eq!(dfa.state_properties.len(), n);
        assert_eq!(dfa.state_keys.len(), n);
        assert_eq!(dfa.start_state_idx, 0);
        assert!(dfa.transition_table.iter().all(|q| *q < n));
    }
}

#[test]
fn broken_tables_are_recognized() {
    let (_, mut dfa) = compiled("ab");
    dfa.transition_table.pop();
    assert!(!dfa.is_well_formed());
    let (_, mut dfa) = compiled("ab");
    let n = dfa.accept_states.len();
    dfa.transition_table[0] = n;
    assert!(!dfa.is_well_formed());
    let (_, mut dfa) = compiled("ab");
    dfa.start_state_idx = n;
    assert!(!dfa.is_well_formed());
    let (_, mut dfa) = compiled("ab");
    dfa.accept_states[0] = !dfa.accept_states[0];
    assert!(!dfa.is_well_formed());
    let (_, mut dfa) = compiled("ab");
    dfa.alphabet.insert('z', 0);
    assert!(!dfa.is_well_formed());
    let (_, mut dfa) = compiled("ab");
    dfa.state_keys.remove_by_right(&0);
    assert!(dfa.is_well_formed());
    assert!(!dfa.has_keys());
}

#[test]
fn broken_nondeterministic_automata_are_recognized() {
    let (mut nfa, _) = compiled("ab");
    let n = nfa.nfa_state_keys.len();
    nfa.start_state = n;
    assert!(!nfa.is_well_formed());
    let (mut nfa, _) = compiled("ab");
    nfa.transitions.push((0, None, n));
    assert!(!nfa.is_well_formed());
    let (mut nfa, _) = compiled("ab");
    let first = nfa.transitions[0];
    nfa.transitions.push(first);
    assert!(!nfa.is_well_formed());
    let (mut nfa, _) = compiled("ab");
    nfa.nfa_state_keys.remove_by_right(&1);
    assert!(!nfa.is_well_formed());
}

#[test]
fn compiling_twice_gives_the_same_automata() {
    let (nfa1, dfa1) = compiled("(a|b)*abb");
    let (nfa2, dfa2) = compiled("(a|b)*abb");
    assert_eq!(nfa1.transitions, nfa2.transitions);
    assert_eq!(nfa1.nfa_state_keys, nfa2.nfa_state_keys);
    assert_eq!(dfa1.transition_table, dfa2.transition_table);
    assert_eq!(dfa1.accept_states, dfa2.accept_states);
    assert_eq!(dfa1.alphabet, dfa2.alphabet);
    assert_eq!(dfa1.state_keys, dfa2.state_keys);
}

#[test]
fn loaded_nondeterministic_automaton_keeps_the_keys() {
    let document = YamlDFA {
        name: "ends in a".to_string(),
        dfa: false,
        description: None,
        states: vec![
            (
                "first".to_string(),
                YamlStateProps {
                    accept: false,
                    label: None,
                },
            ),
            (
                "last".to_string(),
                YamlStateProps {
                    accept: true,
                    label: Some("done".to_string()),
                },
            ),
        ],
        alphabet: vec![YamlSymbolSpecifier::Literal("ab".to_string())],
        start_state: "first".to_string(),
        transitions: vec![(
            "first".to_string(),
            vec![
                YamlTransitionMapping {
                    to: "first".to_string(),
                    on: YamlTransitionOn::Keyword(YamlKeyword::Alphabet),
                },
                YamlTransitionMapping {
                    to: "last".to_string(),
                    on: YamlTransitionOn::Single(YamlSymbolSpecifier::Literal("a".to_string())),
                },
            ],
        )],
    };
    let (nfa, dfa) = match from_yaml(&document).unwrap() {
        Fsm::Nfa { nfa, dfa } => (nfa, dfa),
        Fsm::Dfa(_) => panic!("a nondeterministic automaton was expected"),
    };
    assert_eq!(
        nfa.transitions,
        vec![(0, Some('a'), 0), (0, Some('b'), 0), (0, Some('a'), 1)]
    );
    assert_eq!(nfa.nfa_state_keys.get_by_left("last"), Some(&1));
    assert!(nfa.is_well_formed());
    assert!(dfa.has_keys());
    assert!(dfa.run("bba"));
    assert!(!dfa.run("ab"));
    assert_eq!(dfa.state_keys.get_by_right(&1).unwrap(), "{first,last}");
    let dot = make_nfa_dot(&nfa, "n", None);
    assert!(dot.contains("    \"first\" -> \"first\" [label=\"a, b\"];\n"));
    assert!(dot.contains("    \"first\" -> \"last\" [label=\"a\"];\n"));
    assert!(dot.contains("    \"last\" [label=\"last\", shape=doublecircle];\n"));
}
