use fsm::dfa::Dfa;
use fsm::error::{FsmError, RegexError};
use fsm::parser::Fsm;
use fsm::regex_parser::from_regex;

fn dfa_of(pattern: &str) -> Dfa {
    match from_regex(pattern).unwrap() {
        Fsm::Nfa { dfa, .. } => dfa,
        Fsm::Dfa(dfa) => dfa,
    }
}

fn expect(pattern: &str, accepted: &[&str], rejected: &[&str]) {
    let dfa = dfa_of(pattern);
    for w in accepted {
        assert!(dfa.run(w), "{} should accept {:?}", pattern, w);
    }
    for w in rejected {
        assert!(!dfa.run(w), "{} should reject {:?}", pattern, w);
    }
}

#[test]
fn regex_ends_in_abb() {
    expect(
        "(a|b)*abb",
        &["abb", "aabb", "babb", "ababb"],
        &["", "ab", "abba"],
    );
}

#[test]
fn regex_exact_power() {
    expect("(ab)^3", &["ababab"], &["abab", "abababab"]);
}

#[test]
fn regex_optional_then_plus() {
    expect("a?b+", &["b", "ab", "abbb"], &["", "a", "ba"]);
}

#[test]
fn regex_star_accepts_empty_and_literal_does_not() {
    assert!(dfa_of("a*").run(""));
    assert!(!dfa_of("a").run(""));
}

#[test]
fn regex_rejects_characters_outside_the_alphabet() {
    let dfa = dfa_of("a*");
    assert!(dfa.run("aaa"));
    assert!(!dfa.run("aab"));
    assert!(!dfa.run("z"));
}

#[test]
fn malformed_pattern_is_a_syntax_error() {
    assert_eq!(
        from_regex("(a").err(),
        Some(FsmError::RegexSyntax(RegexError::MissingCloseParen))
    );
    assert_eq!(
        from_regex("").err(),
        Some(FsmError::RegexSyntax(RegexError::EmptyPattern))
    );
    assert_eq!(
        from_regex("a^0").err(),
        Some(FsmError::RegexSyntax(RegexError::ZeroExponent))
    );
}

#[test]
fn automaton_of_a_pattern_is_named_after_it() {
    let dfa = dfa_of("a b");
    assert_eq!(dfa.name, "regex: a b");
    assert_eq!(dfa.description, None);
    assert!(dfa.run("ab"));
}
