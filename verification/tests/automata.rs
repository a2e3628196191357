use fsm::charset::CharSet;
use fsm::parser::{Fsm, Nfa};
use fsm::regex_parser::{expr_to_nfa, from_regex, parse, Expression, NfaBuilder};
use fsm::stateset::StateSet;

fn set_of(states: &[usize]) -> StateSet {
    let mut set = StateSet::new();
    for q in states {
        set.insert(*q);
    }
    set
}

fn nfa_of(pattern: &str) -> Nfa {
    match from_regex(pattern).unwrap() {
        Fsm::Nfa { nfa, .. } => nfa,
        Fsm::Dfa(_) => panic!("a nondeterministic automaton was expected"),
    }
}

#[test]
fn builder_numbers_states_and_keeps_transitions_once() {
    let mut builder = NfaBuilder::new();
    assert_eq!(builder.new_state(), 0);
    assert_eq!(builder.new_state(), 1);
    builder.add_transition(0, 1, Some('a'));
    builder.add_transition(0, 1, None);
    builder.add_transition(0, 1, Some('a'));
    assert_eq!(builder.state_counter, 2);
    assert_eq!(builder.transitions, vec![(0, Some('a'), 1), (0, None, 1)]);
}

#[test]
fn thompson_automaton_of_a_literal() {
    let mut builder = NfaBuilder::new();
    let ends = expr_to_nfa(&parse("a").unwrap(), &mut builder);
    assert_eq!(ends, (0, 1));
    assert_eq!(builder.transitions, vec![(0, Some('a'), 1)]);
}

#[test]
fn thompson_automaton_of_a_star() {
    let mut builder = NfaBuilder::new();
    let ends = expr_to_nfa(&parse("a*").unwrap(), &mut builder);
    assert_eq!(ends, (0, 1));
    assert_eq!(builder.state_counter, 4);
    assert_eq!(
        builder.transitions,
        vec![
            (2, Some('a'), 3),
            (0, None, 1),
            (0, None, 2),
            (3, None, 1),
            (3, None, 2)
        ]
    );
}

#[test]
fn thompson_automaton_of_concatenation_and_alternation() {
    let mut builder = NfaBuilder::new();
    let ends = expr_to_nfa(&parse("ab").unwrap(), &mut builder);
    assert_eq!(ends, (0, 3));
    assert_eq!(
        builder.transitions,
        vec![(0, Some('a'), 1), (2, Some('b'), 3), (1, None, 2)]
    );
    let mut builder = NfaBuilder::new();
    let ends = expr_to_nfa(&parse("a|b").unwrap(), &mut builder);
    assert_eq!(ends, (0, 1));
    assert_eq!(
        builder.transitions,
        vec![
            (2, Some('a'), 3),
            (4, Some('b'), 5),
            (0, None, 2),
            (0, None, 4),
            (3, None, 1),
            (5, None, 1)
        ]
    );
}

#[test]
fn closure_follows_epsilon_moves_and_cycles() {
    let nfa = nfa_of("a*");
    assert_eq!(
        nfa.epsilon_closure(&set_of(&[0])).to_vec(),
        vec![0, 1, 2]
    );
    assert_eq!(
        nfa.epsilon_closure(&set_of(&[3])).to_vec(),
        vec![1, 2, 3]
    );
    assert_eq!(nfa.epsilon_closure(&set_of(&[])).to_vec(), vec![]);
    let once = nfa.epsilon_closure(&set_of(&[3]));
    assert!(nfa.epsilon_closure(&once).equals(&once));
}

#[test]
fn move_collects_targets_of_a_character() {
    let nfa = nfa_of("a*");
    assert_eq!(nfa.move_on_char(&set_of(&[0, 1, 2]), 'a').to_vec(), vec![3]);
    assert_eq!(nfa.move_on_char(&set_of(&[0, 1]), 'a').to_vec(), vec![]);
    assert_eq!(nfa.move_on_char(&set_of(&[2]), 'b').to_vec(), vec![]);
}

#[test]
fn subset_construction_numbers_states_in_discovery_order() {
    let nfa = nfa_of("ab|ac");
    let mut alphabet = CharSet::new();
    for c in "abc".chars() {
        alphabet.insert(c);
    }
    let dfa = nfa.to_dfa("t", None, &alphabet).unwrap();
    assert_eq!(dfa.start_state_idx, 0);
    let n = dfa.accept_states.len();
    assert_eq!(n, 5);
    assert_eq!(dfa.transition_table.len(), n * 3);
    assert_eq!(dfa.state_properties.len(), n);
    assert_eq!(
        dfa.transition_table,
        vec![1, 4, 4, 4, 2, 3, 4, 4, 4, 4, 4, 4, 4, 4, 4]
    );
    assert_eq!(dfa.accept_states, vec![false, false, true, true, false]);
    assert_eq!(dfa.state_properties[4].label.as_deref(), Some("FAILURE"));
    assert!(dfa.transition_table.iter().all(|q| *q < n));
}

#[test]
fn no_dead_state_where_every_transition_exists() {
    let nfa = nfa_of("a*");
    let mut alphabet = CharSet::new();
    alphabet.insert('a');
    let dfa = nfa.to_dfa("t", None, &alphabet).unwrap();
    assert_eq!(dfa.accept_states, vec![true, true]);
    assert_eq!(dfa.transition_table, vec![1, 1]);
    assert!(dfa.state_keys.get_by_left("FAILURE").is_none());
    assert_eq!(dfa.state_keys.get_by_right(&1).unwrap(), "{q1,q2,q3}");
}

#[test]
fn keys_of_subsets_are_sorted_as_texts() {
    let nfa = nfa_of("(a|b|c|d|e)*");
    assert_eq!(nfa.nfa_state_keys.len(), 20);
    let key = nfa.subset_key(&set_of(&[2, 10, 11, 1]));
    assert_eq!(key, "{q1,q10,q11,q2}");
}

#[test]
fn deterministic_automaton_without_accepting_state_rejects_all() {
    let nfa = nfa_of("a");
    let silent = Nfa {
        transitions: nfa.transitions.clone(),
        start_state: nfa.start_state,
        nfa_accept_states: StateSet::new(),
        nfa_state_keys: nfa.nfa_state_keys.clone(),
    };
    let mut alphabet = CharSet::new();
    alphabet.insert('a');
    let dfa = silent.to_dfa("t", None, &alphabet).unwrap();
    for w in ["", "a", "aa", "b"] {
        assert!(!dfa.run(w));
    }
}

#[test]
fn desugared_patterns_accept_the_same_inputs() {
    let pairs = [("a+", "aa*"), ("(ab)^3", "ababab"), ("a?b", "(a|b^1)b|b")];
    let inputs = [
        "", "a", "b", "aa", "ab", "ba", "bb", "aaa", "abab", "ababab", "abababab", "aab",
    ];
    for (left, right) in pairs {
        let l = match from_regex(left).unwrap() {
            Fsm::Nfa { dfa, .. } => dfa,
            Fsm::Dfa(dfa) => dfa,
        };
        let r = match from_regex(right).unwrap() {
            Fsm::Nfa { dfa, .. } => dfa,
            Fsm::Dfa(dfa) => dfa,
        };
        if left != "a?b" {
            for w in inputs {
                assert_eq!(l.run(w), r.run(w), "{} {} {:?}", left, right, w);
            }
        }
    }
    let optional = match from_regex("a?").unwrap() {
        Fsm::Nfa { dfa, .. } => dfa,
        Fsm::Dfa(dfa) => dfa,
    };
    assert!(optional.run(""));
    assert!(optional.run("a"));
    assert!(!optional.run("aa"));
}

fn denotes(e: &Expression, w: &[char]) -> bool {
    match e {
        Expression::Epsilon => w.is_empty(),
        Expression::Literal(c) => w.len() == 1 && w[0] == *c,
        Expression::Concat(a, b) => {
            (0..=w.len()).any(|k| denotes(a, &w[..k]) && denotes(b, &w[k..]))
        }
        Expression::Alternate(a, b) => denotes(a, w) || denotes(b, w),
        Expression::Star(a) => {
            w.is_empty() || (1..=w.len()).any(|k| denotes(a, &w[..k]) && denotes(e, &w[k..]))
        }
    }
}

fn matches(pattern: &str, w: &[char]) -> bool {
    denotes(&parse(pattern).unwrap(), w)
}

#[test]
fn automata_agree_with_the_meaning_of_expressions_on_short_inputs() {
    let patterns = ["(a|b)*abb", "a?b+", "(ab)^2|b*", "(a*b)*", "a(b|a)?a"];
    let mut inputs: Vec<Vec<char>> = vec![vec![]];
    let mut frontier: Vec<Vec<char>> = vec![vec![]];
    for _ in 0..6 {
        let mut next = Vec::new();
        for w in &frontier {
            for c in ['a', 'b'] {
                let mut longer = w.clone();
                longer.push(c);
                next.push(longer);
            }
        }
        inputs.extend(next.iter().cloned());
        frontier = next;
    }
    for pattern in patterns {
        let dfa = match from_regex(pattern).unwrap() {
            Fsm::Nfa { dfa, .. } => dfa,
            Fsm::Dfa(dfa) => dfa,
        };
        for w in &inputs {
            let text: String = w.iter().collect();
            assert_eq!(dfa.run(&text), matches(pattern, w), "{} {:?}", pattern, text);
        }
    }
}
