use fsm::charset::CharSet;
use fsm::dfa::Dfa;
use fsm::dot_generator::{format_char, format_char_set, make_dot, make_nfa_dot};
use fsm::parser::Fsm;
use fsm::regex_parser::from_regex;

fn set_of(text: &str) -> CharSet {
    let mut set = CharSet::new();
    for c in text.chars() {
        set.insert(c);
    }
    set
}

#[test]
fn characters_are_escaped_for_labels() {
    assert_eq!(format_char('a'), "a");
    assert_eq!(format_char('"'), "\\\"");
    assert_eq!(format_char('\\'), "\\\\");
    assert_eq!(format_char(' '), "\u{2423}");
    assert_eq!(format_char(','), "[comma]");
    assert_eq!(format_char('-'), "[dash]");
}

#[test]
fn character_sets_collapse_to_ranges() {
    assert_eq!(format_char_set(&set_of("")), " ");
    assert_eq!(format_char_set(&set_of("a")), "a");
    assert_eq!(format_char_set(&set_of("ab")), "a, b");
    assert_eq!(format_char_set(&set_of("abc")), "a-c");
    assert_eq!(format_char_set(&set_of("zcab0123456789")), "0-9, a-c, z");
    assert_eq!(format_char_set(&set_of("a,-")), "[comma], [dash], a");
}

fn automata(pattern: &str) -> (fsm::parser::Nfa, Dfa) {
    match from_regex(pattern).unwrap() {
        Fsm::Nfa { nfa, dfa } => (nfa, dfa),
        Fsm::Dfa(_) => panic!("a nondeterministic automaton was expected"),
    }
}

#[test]
fn dot_of_a_small_deterministic_automaton() {
    let (_, dfa) = automata("a");
    assert!(dfa.has_keys());
    let expected = "digraph \"regex: a\" {\n    rankdir=LR;\n    label=\"regex: a\";\n    node [shape=circle];\n    __start [shape=none, label=\"\"];\n    \"{q0}\" [label=\"{q0}\", shape=circle];\n    \"{q1}\" [label=\"{q1}\", shape=doublecircle];\n    \"FAILURE\" [label=\"FAILURE\", shape=circle];\n    __start -> \"{q0}\";\n    \"{q0}\" -> \"{q1}\" [label=\"a\"];\n    \"{q1}\" -> \"FAILURE\" [label=\"a\"];\n    \"FAILURE\" -> \"FAILURE\" [label=\"a\"];\n}\n";
    assert_eq!(make_dot(&dfa), expected);
}

#[test]
fn dot_of_a_small_nondeterministic_automaton() {
    let (nfa, _) = automata("a*");
    let expected = "digraph \"n\" {\n    rankdir=LR;\n    label=\"two\\nlines\";\n    node [shape=circle];\n    __start [shape=none, label=\"\"];\n    \"q0\" [label=\"q0\", shape=circle];\n    \"q1\" [label=\"q1\", shape=doublecircle];\n    \"q2\" [label=\"q2\", shape=circle];\n    \"q3\" [label=\"q3\", shape=circle];\n    __start -> \"q0\";\n    \"q0\" -> \"q1\" [label=\"\u{3b5}\"];\n    \"q0\" -> \"q2\" [label=\"\u{3b5}\"];\n    \"q2\" -> \"q3\" [label=\"a\"];\n    \"q3\" -> \"q1\" [label=\"\u{3b5}\"];\n    \"q3\" -> \"q2\" [label=\"\u{3b5}\"];\n}\n";
    assert_eq!(make_nfa_dot(&nfa, "n", Some("two\nlines")), expected);
}

#[test]
fn transition_table_as_text() {
    let (_, dfa) = automata("a");
    let text = dfa.print_transition_table();
    let lines: Vec<&str> = text.lines().collect();
    assert_eq!(lines.len(), 5);
    assert_eq!(lines[0], "DFA: regex: a");
    assert_eq!(lines[1], format!("{:<4}{:<20}{:<19}", "", "STATE", "a"));
    assert_eq!(
        lines[2],
        format!("{:<4}{:<20}{:<19}", "--> ", "{q0}", "{q1}")
    );
    assert_eq!(
        lines[3],
        format!("{:<4}{:<20}{:<19}", "    ", "{q1}*", "FAILURE")
    );
    assert_eq!(
        lines[4],
        format!("{:<4}{:<20}{:<19}", "    ", "FAILURE", "FAILURE")
    );
}

#[test]
fn long_keys_are_cut_in_the_table() {
    let (_, dfa) = automata("(a|b|c|d)*");
    let text = dfa.print_transition_table();
    for line in text.lines().skip(2) {
        assert_eq!(line.chars().count(), 4 + 20 + 4 * 19);
    }
}
