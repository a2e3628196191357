use fsm::charset::CharSet;
use fsm::dfa::Dfa;
use fsm::error::{FsmError, SpecifierError};
use fsm::parser::{
    from_yaml, read_alphabet, Fsm, YamlDFA, YamlExceptValue, YamlKeyword, YamlRangeMap,
    YamlStateProps, YamlSymbolSpecifier, YamlTransitionMapping, YamlTransitionOn,
};

fn lit(text: &str) -> YamlSymbolSpecifier {
    YamlSymbolSpecifier::Literal(text.to_string())
}

fn crange(text: &str) -> YamlSymbolSpecifier {
    YamlSymbolSpecifier::Range(YamlRangeMap {
        crange: Some(text.to_string()),
        nrange: None,
    })
}

fn nrange(text: &str) -> YamlSymbolSpecifier {
    YamlSymbolSpecifier::Range(YamlRangeMap {
        crange: None,
        nrange: Some(text.to_string()),
    })
}

fn state(key: &str, accept: bool) -> (String, YamlStateProps) {
    (
        key.to_string(),
        YamlStateProps {
            accept,
            label: None,
        },
    )
}

fn rule(to: &str, on: YamlTransitionOn) -> YamlTransitionMapping {
    YamlTransitionMapping {
        to: to.to_string(),
        on,
    }
}

fn on(text: &str) -> YamlTransitionOn {
    YamlTransitionOn::Single(lit(text))
}

fn members(set: &CharSet) -> String {
    set.to_vec().into_iter().collect()
}

fn chars_of(spec: &YamlSymbolSpecifier) -> Result<String, SpecifierError> {
    spec.to_char_set().map(|set| members(&set))
}

fn dfa_of(fsm: Fsm) -> Dfa {
    match fsm {
        Fsm::Dfa(dfa) => dfa,
        Fsm::Nfa { dfa, .. } => dfa,
    }
}

fn odd_ones(dfa: bool) -> YamlDFA {
    YamlDFA {
        name: "odd ones".to_string(),
        dfa,
        description: Some("ends in an odd number of 1s".to_string()),
        states: vec![state("s0", false), state("s1", true)],
        alphabet: vec![lit("0"), lit("1")],
        start_state: "s0".to_string(),
        transitions: vec![
            (
                "s0".to_string(),
                vec![rule("s0", on("0")), rule("s1", on("1"))],
            ),
            (
                "s1".to_string(),
                vec![rule("s1", on("0")), rule("s0", on("1"))],
            ),
        ],
    }
}

#[test]
fn literal_specifier_gives_its_characters() {
    assert_eq!(chars_of(&lit("cab")), Ok("abc".to_string()));
    assert_eq!(chars_of(&lit("")), Ok(String::new()));
    assert_eq!(chars_of(&lit("aa")), Ok("a".to_string()));
}

#[test]
fn character_range_is_inclusive() {
    assert_eq!(chars_of(&crange("a..e")), Ok("abcde".to_string()));
    assert_eq!(chars_of(&crange("x..x")), Ok("x".to_string()));
    assert_eq!(chars_of(&crange("ab..cd")), Ok("abc".to_string()));
}

#[test]
fn character_range_errors() {
    assert_eq!(
        chars_of(&crange("abc")),
        Err(SpecifierError::MalformedCharRange)
    );
    assert_eq!(
        chars_of(&crange("a..b..c")),
        Err(SpecifierError::MalformedCharRange)
    );
    assert_eq!(chars_of(&crange("..z")), Err(SpecifierError::EmptyRangeStart));
    assert_eq!(chars_of(&crange("a..")), Err(SpecifierError::EmptyRangeEnd));
    assert_eq!(
        chars_of(&crange("z..a")),
        Err(SpecifierError::ReversedCharRange)
    );
    assert_eq!(
        chars_of(&crange("a...z")),
        Err(SpecifierError::ReversedCharRange)
    );
}

#[test]
fn character_range_skips_what_is_no_character() {
    let spec = crange("\u{d7ff}..\u{e000}");
    assert_eq!(chars_of(&spec), Ok("\u{d7ff}\u{e000}".to_string()));
}

#[test]
fn numeric_range_gives_digits() {
    assert_eq!(chars_of(&nrange("0..9")), Ok("0123456789".to_string()));
    assert_eq!(chars_of(&nrange("3..5")), Ok("345".to_string()));
    assert_eq!(chars_of(&nrange("+2..04")), Ok("234".to_string()));
}

#[test]
fn numeric_range_errors() {
    assert_eq!(
        chars_of(&nrange("5")),
        Err(SpecifierError::MalformedNumericRange)
    );
    assert_eq!(
        chars_of(&nrange("a..5")),
        Err(SpecifierError::InvalidRangeStartNumber)
    );
    assert_eq!(
        chars_of(&nrange("..5")),
        Err(SpecifierError::InvalidRangeStartNumber)
    );
    assert_eq!(
        chars_of(&nrange("1..256")),
        Err(SpecifierError::InvalidRangeEndNumber)
    );
    assert_eq!(
        chars_of(&nrange("1..-2")),
        Err(SpecifierError::InvalidRangeEndNumber)
    );
    assert_eq!(
        chars_of(&nrange("5..1")),
        Err(SpecifierError::ReversedNumericRange)
    );
    assert_eq!(
        chars_of(&nrange("5..12")),
        Err(SpecifierError::NumericRangeOutOfBounds)
    );
}

#[test]
fn range_record_unites_both_ranges() {
    let spec = YamlSymbolSpecifier::Range(YamlRangeMap {
        crange: Some("a..c".to_string()),
        nrange: Some("0..1".to_string()),
    });
    assert_eq!(chars_of(&spec), Ok("01abc".to_string()));
    let empty = YamlSymbolSpecifier::Range(YamlRangeMap {
        crange: None,
        nrange: None,
    });
    assert_eq!(chars_of(&empty), Ok(String::new()));
}

#[test]
fn alphabet_is_the_union_in_ascending_order() {
    let alphabet = read_alphabet(&vec![lit("zb"), crange("a..c"), nrange("0..2")]).unwrap();
    assert_eq!(members(&alphabet), "012abcz");
    assert_eq!(
        read_alphabet(&vec![lit("a"), crange("z..a"), nrange("x")]).map(|s| members(&s)),
        Err(SpecifierError::ReversedCharRange)
    );
}

#[test]
fn exclusion_fires_on_the_rest_of_the_alphabet() {
    let alphabet = read_alphabet(&vec![crange("a..z")]).unwrap();
    let trigger = YamlTransitionOn::Except {
        except: YamlExceptValue::Multiple(vec![lit("x"), lit("y")]),
    };
    match trigger.to_transition_trigger(&alphabet).unwrap() {
        fsm::parser::TransitionTrigger::Chars(chars) => {
            assert_eq!(members(&chars), "abcdefghijklmnopqrstuvwz");
            assert_eq!(chars.len(), 24);
        }
        fsm::parser::TransitionTrigger::Epsilon => panic!("no epsilon expected"),
    }
}

#[test]
fn keywords_resolve() {
    let alphabet = read_alphabet(&vec![lit("ab")]).unwrap();
    match YamlTransitionOn::Keyword(YamlKeyword::Alphabet)
        .to_transition_trigger(&alphabet)
        .unwrap()
    {
        fsm::parser::TransitionTrigger::Chars(chars) => assert_eq!(members(&chars), "ab"),
        fsm::parser::TransitionTrigger::Epsilon => panic!("no epsilon expected"),
    }
    assert!(matches!(
        YamlTransitionOn::Keyword(YamlKeyword::Epsilon).to_transition_trigger(&alphabet),
        Ok(fsm::parser::TransitionTrigger::Epsilon)
    ));
}

#[test]
fn deterministic_description_odd_number_of_ones() {
    let document = odd_ones(true);
    assert!(document.is_well_formed());
    let fsm = from_yaml(&document).unwrap();
    assert!(matches!(fsm, Fsm::Dfa(_)));
    let dfa = dfa_of(fsm);
    assert_eq!(dfa.transition_table, vec![0, 1, 1, 0]);
    assert_eq!(dfa.accept_states, vec![false, true]);
    assert_eq!(dfa.start_state_idx, 0);
    assert_eq!(
        dfa.transition_table.len(),
        dfa.state_keys.len() * dfa.alphabet.len()
    );
    for w in ["1", "111", "01", "1101"] {
        assert!(dfa.run(w), "{:?}", w);
    }
    for w in ["", "0", "11"] {
        assert!(!dfa.run(w), "{:?}", w);
    }
    assert!(!dfa.run("12"));
}

#[test]
fn nondeterministic_description_gives_the_same_language() {
    let document = odd_ones(false);
    let fsm = from_yaml(&document).unwrap();
    assert!(matches!(fsm, Fsm::Nfa { .. }));
    let dfa = dfa_of(fsm);
    assert_eq!(dfa.start_state_idx, 0);
    for w in ["1", "111", "01", "1101"] {
        assert!(dfa.run(w), "{:?}", w);
    }
    for w in ["", "0", "11"] {
        assert!(!dfa.run(w), "{:?}", w);
    }
}

fn a_or_b() -> YamlDFA {
    YamlDFA {
        name: "a or b".to_string(),
        dfa: false,
        description: None,
        states: vec![
            state("a0", false),
            state("a1", false),
            state("b0", false),
            state("b1", false),
            state("end", true),
            state("start", false),
        ],
        alphabet: vec![lit("ab")],
        start_state: "start".to_string(),
        transitions: vec![
            ("a0".to_string(), vec![rule("a1", on("a"))]),
            (
                "a1".to_string(),
                vec![rule("end", YamlTransitionOn::Keyword(YamlKeyword::Epsilon))],
            ),
            ("b0".to_string(), vec![rule("b1", on("b"))]),
            (
                "b1".to_string(),
                vec![rule("end", YamlTransitionOn::Keyword(YamlKeyword::Epsilon))],
            ),
            (
                "start".to_string(),
                vec![
                    rule("a0", YamlTransitionOn::Keyword(YamlKeyword::Epsilon)),
                    rule("b0", YamlTransitionOn::Keyword(YamlKeyword::Epsilon)),
                ],
            ),
        ],
    }
}

#[test]
fn epsilon_moves_encode_alternation() {
    let document = a_or_b();
    assert!(document.is_well_formed());
    let fsm = from_yaml(&document).unwrap();
    let (nfa, dfa) = match fsm {
        Fsm::Nfa { nfa, dfa } => (nfa, dfa),
        Fsm::Dfa(_) => panic!("a nondeterministic automaton was expected"),
    };
    assert_eq!(nfa.start_state, 5);
    assert!(dfa.run("a"));
    assert!(dfa.run("b"));
    assert!(!dfa.run(""));
    assert!(!dfa.run("ab"));
    let failure = dfa.state_keys.get_by_left("FAILURE").copied();
    assert_eq!(failure, Some(dfa.accept_states.len() - 1));
    let sink = failure.unwrap();
    assert!(!dfa.accept_states[sink]);
    let width = dfa.alphabet.len();
    for a in 0..width {
        assert_eq!(dfa.transition_table[sink * width + a], sink);
    }
    assert_eq!(dfa.state_keys.get_by_right(&0).unwrap(), "{a0,b0,start}");
}

#[test]
fn errors_of_deterministic_descriptions_are_reported() {
    let mut ambiguous = odd_ones(true);
    ambiguous.transitions[0].1.push(rule("s1", on("0")));
    assert_eq!(
        from_yaml(&ambiguous).err(),
        Some(FsmError::Ambiguity {
            state: 0,
            symbol: '0'
        })
    );

    let mut repeated = odd_ones(true);
    repeated.transitions[0].1.push(rule("s0", on("0")));
    assert!(from_yaml(&repeated).is_ok());

    let mut incomplete = odd_ones(true);
    incomplete.transitions[1].1.pop();
    assert_eq!(
        from_yaml(&incomplete).err(),
        Some(FsmError::IncompleteDfa {
            state: 1,
            symbol: '1'
        })
    );

    let mut silent = odd_ones(true);
    silent.transitions[1]
        .1
        .push(rule("s0", YamlTransitionOn::Keyword(YamlKeyword::Epsilon)));
    assert_eq!(
        from_yaml(&silent).err(),
        Some(FsmError::EpsilonInDfa { state: 1 })
    );

    let mut outside = odd_ones(true);
    outside.transitions[0].1.push(rule("s0", on("2")));
    assert_eq!(
        from_yaml(&outside).err(),
        Some(FsmError::OutOfAlphabet('2'))
    );
}

#[test]
fn errors_of_any_description_are_reported() {
    for dfa in [true, false] {
        let mut unknown_start = odd_ones(dfa);
        unknown_start.start_state = "s9".to_string();
        assert_eq!(
            from_yaml(&unknown_start).err(),
            Some(FsmError::UnknownState)
        );

        let mut unknown_target = odd_ones(dfa);
        unknown_target.transitions[0].1[0].to = "s9".to_string();
        assert_eq!(
            from_yaml(&unknown_target).err(),
            Some(FsmError::UnknownState)
        );

        let mut unknown_source = odd_ones(dfa);
        unknown_source.transitions.push(("s9".to_string(), vec![]));
        assert_eq!(
            from_yaml(&unknown_source).err(),
            Some(FsmError::UnknownState)
        );

        let mut bad_alphabet = odd_ones(dfa);
        bad_alphabet.alphabet.push(crange("z..a"));
        assert_eq!(
            from_yaml(&bad_alphabet).err(),
            Some(FsmError::SpecSyntax(SpecifierError::ReversedCharRange))
        );

        let mut bad_trigger = odd_ones(dfa);
        bad_trigger.transitions[0].1[0].on = YamlTransitionOn::Single(nrange("1..x"));
        assert_eq!(
            from_yaml(&bad_trigger).err(),
            Some(FsmError::SpecSyntax(SpecifierError::InvalidRangeEndNumber))
        );
    }
}

#[test]
fn nondeterministic_description_may_be_partial_and_ambiguous() {
    let mut document = odd_ones(false);
    document.transitions[0].1.push(rule("s1", on("0")));
    document.transitions[1].1.clear();
    let dfa = dfa_of(from_yaml(&document).unwrap());
    assert!(dfa.run("0"));
    assert!(dfa.run("1"));
    assert!(dfa.run("00"));
    assert!(!dfa.run("10"));
    assert!(!dfa.run(""));
}

#[test]
fn order_of_states_is_checked() {
    let mut document = odd_ones(true);
    document.states.swap(0, 1);
    assert!(!document.is_well_formed());
    let mut twice = odd_ones(true);
    twice.states.push(state("s1", false));
    assert!(!twice.is_well_formed());
}

#[test]
fn loading_twice_gives_the_same_automaton() {
    let first = dfa_of(from_yaml(&a_or_b()).unwrap());
    let second = dfa_of(from_yaml(&a_or_b()).unwrap());
    assert_eq!(first.transition_table, second.transition_table);
    assert_eq!(first.accept_states, second.accept_states);
    assert_eq!(first.state_keys, second.state_keys);
    for w in ["", "a", "b", "ab", "ba", "aa"] {
        assert_eq!(first.run(w), second.run(w));
    }
}
