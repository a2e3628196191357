//! Symbol specifiers: the ways in which an automaton description denotes
//! sets of characters, for its alphabet and for the triggers of its
//! transitions.

use crate::charset::CharSet;
use crate::error::SpecifierError;
use crate::text::{chars_of, digit, digits_value, is_digit};
use vstd::prelude::*;

verus! {

/// `char::from_u32` returns the character with the given code point, and
/// nothing where the number is no code point of a character.
pub assume_specification[ char::from_u32 ](i: u32) -> (r: Option<char>)
    ensures
        r == if i <= 0xD7FF || (0xE000 <= i && i <= 0x10FFFF) {
            Some(i as char)
        } else {
            None
        },
;

/// A range given as text: `crange` holds two characters around `..`,
/// `nrange` two numbers around `..`.
#[derive(Debug, Clone)]
pub struct YamlRangeMap {
    pub crange: Option<String>,
    pub nrange: Option<String>,
}

/// A symbol specifier: a text that denotes its characters, or a range.
#[derive(Debug, Clone)]
pub enum YamlSymbolSpecifier {
    Literal(String),
    Range(YamlRangeMap),
}

/// The keywords that may stand for a trigger.
#[derive(Debug, Clone)]
pub enum YamlKeyword {
    /// Every character of the alphabet.
    Alphabet,
    /// An epsilon move.
    Epsilon,
}

/// What an exclusion excludes: one specifier or several.
#[derive(Debug, Clone)]
pub enum YamlExceptValue {
    Single(YamlSymbolSpecifier),
    Multiple(Vec<YamlSymbolSpecifier>),
}

/// The trigger of a transition as it is written.
#[derive(Debug, Clone)]
pub enum YamlTransitionOn {
    /// The alphabet without the characters denoted.
    Except { except: YamlExceptValue },
    Keyword(YamlKeyword),
    Single(YamlSymbolSpecifier),
    /// The union of the specifiers.
    Multiple(Vec<YamlSymbolSpecifier>),
}

/// The trigger of a transition, resolved.
#[derive(Debug)]
pub enum TransitionTrigger {
    Chars(CharSet),
    Epsilon,
}

/// What a trigger denotes in the model.
pub enum Trigger {
    Chars(Set<char>),
    Epsilon,
}

/// Whether `..` stands at `k` in `s`.
pub open spec fn dots_at(s: Seq<char>, k: int) -> bool {
    0 <= k && k + 1 < s.len() && s[k] == '.' && s[k + 1] == '.'
}

/// The first place at or after `from` where `..` stands in `s`.
pub open spec fn first_dots(s: Seq<char>, from: int) -> Option<int>
    decreases s.len() - from,
{
    if from < 0 || from + 1 >= s.len() {
        None
    } else if dots_at(s, from) {
        Some(from)
    } else {
        first_dots(s, from + 1)
    }
}

/// The two parts of `s` around its `..`, where splitting `s` at each `..`
/// from left to right gives exactly two parts.
pub open spec fn range_parts(s: Seq<char>) -> Option<(Seq<char>, Seq<char>)> {
    match first_dots(s, 0) {
        Some(k) => if first_dots(s, k + 2) is Some {
            None
        } else {
            Some((s.take(k), s.skip(k + 2)))
        },
        None => None,
    }
}

/// The characters from `first` to `last` in the order of code points, both
/// included.
pub open spec fn chars_between(first: char, last: char) -> Set<char> {
    Set::new(|c: char| first <= c && c <= last)
}

/// The characters that the character range `text` denotes: those from the
/// first character before `..` to the first character after it.
pub open spec fn char_range(text: Seq<char>) -> Result<Set<char>, SpecifierError> {
    match range_parts(text) {
        None => Err(SpecifierError::MalformedCharRange),
        Some((before, after)) => if before.len() == 0 {
            Err(SpecifierError::EmptyRangeStart)
        } else if after.len() == 0 {
            Err(SpecifierError::EmptyRangeEnd)
        } else if before[0] > after[0] {
            Err(SpecifierError::ReversedCharRange)
        } else {
            Ok(chars_between(before[0], after[0]))
        },
    }
}

/// The number that `s` spells: decimal digits after an optional `+`, with a
/// value of at most 255.
pub open spec fn small_number(s: Seq<char>) -> Option<u8> {
    let from: int = if s.len() > 0 && s[0] == '+' {
        1
    } else {
        0
    };
    if from >= s.len() || !(forall|i: int| from <= i < s.len() ==> is_digit(#[trigger] s[i]))
        || digits_value(s, from, s.len() as int) > 255 {
        None
    } else {
        Some(digits_value(s, from, s.len() as int) as u8)
    }
}

/// The digits `first` to `last`.
pub open spec fn digits_between(first: u8, last: u8) -> Set<char> {
    Set::new(|c: char| exists|n: nat| first <= n <= last && c == digit(n))
}

/// The characters that the numeric range `text` denotes: the digits from
/// the number before `..` to the number after it, neither above 9.
pub open spec fn numeric_range(text: Seq<char>) -> Result<Set<char>, SpecifierError> {
    match range_parts(text) {
        None => Err(SpecifierError::MalformedNumericRange),
        Some((before, after)) => match small_number(before) {
            None => Err(SpecifierError::InvalidRangeStartNumber),
            Some(first) => match small_number(after) {
                None => Err(SpecifierError::InvalidRangeEndNumber),
                Some(last) => if first > last {
                    Err(SpecifierError::ReversedNumericRange)
                } else if first > 9 || last > 9 {
                    Err(SpecifierError::NumericRangeOutOfBounds)
                } else {
                    Ok(digits_between(first, last))
                },
            },
        },
    }
}

/// The characters that a specifier denotes: those of a literal text, or
/// those of the character range and of the numeric range of a range record.
pub open spec fn specifier_chars(spec: YamlSymbolSpecifier) -> Result<Set<char>, SpecifierError> {
    match spec {
        YamlSymbolSpecifier::Literal(s) => Ok(s@.to_set()),
        YamlSymbolSpecifier::Range(range_map) => {
            let first = match range_map.crange {
                Some(text) => char_range(text@),
                None => Ok(Set::<char>::empty()),
            };
            let second = match range_map.nrange {
                Some(text) => numeric_range(text@),
                None => Ok(Set::<char>::empty()),
            };
            match first {
                Err(e) => Err(e),
                Ok(a) => match second {
                    Err(e) => Err(e),
                    Ok(b) => Ok(a.union(b)),
                },
            }
        },
    }
}

/// The characters that the specifiers denote together; the first error in
/// their order where one of them is malformed.
pub open spec fn specifiers_chars(specs: Seq<YamlSymbolSpecifier>) -> Result<
    Set<char>,
    SpecifierError,
>
    decreases specs.len(),
{
    if specs.len() == 0 {
        Ok(Set::<char>::empty())
    } else {
        match specifiers_chars(specs.drop_last()) {
            Err(e) => Err(e),
            Ok(a) => match specifier_chars(specs.last()) {
                Err(e) => Err(e),
                Ok(b) => Ok(a.union(b)),
            },
        }
    }
}

/// What the trigger `on` denotes over the alphabet `full`.
pub open spec fn trigger_of(on: YamlTransitionOn, full: Set<char>) -> Result<
    Trigger,
    SpecifierError,
> {
    match on {
        YamlTransitionOn::Single(spec) => match specifier_chars(spec) {
            Ok(chars) => Ok(Trigger::Chars(chars)),
            Err(e) => Err(e),
        },
        YamlTransitionOn::Multiple(specs) => match specifiers_chars(specs@) {
            Ok(chars) => Ok(Trigger::Chars(chars)),
            Err(e) => Err(e),
        },
        YamlTransitionOn::Keyword(YamlKeyword::Alphabet) => Ok(Trigger::Chars(full)),
        YamlTransitionOn::Keyword(YamlKeyword::Epsilon) => Ok(Trigger::Epsilon),
        YamlTransitionOn::Except { except: YamlExceptValue::Single(spec) } => match specifier_chars(
            spec,
        ) {
            Ok(chars) => Ok(Trigger::Chars(full.difference(chars))),
            Err(e) => Err(e),
        },
        YamlTransitionOn::Except {
            except: YamlExceptValue::Multiple(specs),
        } => match specifiers_chars(specs@) {
            Ok(chars) => Ok(Trigger::Chars(full.difference(chars))),
            Err(e) => Err(e),
        },
    }
}

/// Whether the executable result `r` is the modelled set `p`.
pub open spec fn chars_as(r: Result<CharSet, SpecifierError>, p: Result<Set<char>, SpecifierError>) -> bool {
    match r {
        Ok(chars) => chars.wf() && p == Ok::<Set<char>, SpecifierError>(chars@),
        Err(e) => p == Err::<Set<char>, SpecifierError>(e),
    }
}

/// Whether the executable trigger `r` is the modelled trigger `p`.
pub open spec fn trigger_as(
    r: Result<TransitionTrigger, SpecifierError>,
    p: Result<Trigger, SpecifierError>,
) -> bool {
    match r {
        Ok(TransitionTrigger::Chars(chars)) => chars.wf() && p == Ok::<Trigger, SpecifierError>(
            Trigger::Chars(chars@),
        ),
        Ok(TransitionTrigger::Epsilon) => p == Ok::<Trigger, SpecifierError>(Trigger::Epsilon),
        Err(e) => p == Err::<Trigger, SpecifierError>(e),
    }
}

/// Finds the first `..` at or after `from`.
fn find_dots(chars: &Vec<char>, from: usize) -> (found: Option<usize>)
    ensures
        match found {
            Some(k) => first_dots(chars@, from as int) == Some(k as int) && from <= k && k + 2
                <= chars@.len(),
            None => first_dots(chars@, from as int) is None,
        },
{
    let mut k: usize = from;
    while k < chars.len() && k + 1 < chars.len()
        invariant
            from <= k,
            first_dots(chars@, from as int) == first_dots(chars@, k as int),
        decreases chars@.len() - k,
    {
        if chars[k] == '.' && chars[k + 1] == '.' {
            return Some(k);
        }
        k = k + 1;
    }
    None
}

/// Splits `chars` at its `..`, where there is exactly one.
fn split_range(chars: &Vec<char>) -> (parts: Option<(Vec<char>, Vec<char>)>)
    ensures
        match parts {
            Some((before, after)) => range_parts(chars@) == Some((before@, after@)),
            None => range_parts(chars@) is None,
        },
{
    let k = match find_dots(chars, 0) {
        Some(k) => k,
        None => {
            return None;
        },
    };
    let len = chars.len();
    if find_dots(chars, k + 2).is_some() {
        return None;
    }
    let mut before: Vec<char> = Vec::new();
    let mut i: usize = 0;
    while i < k
        invariant
            i <= k,
            k <= chars@.len(),
            before@ == chars@.take(i as int),
        decreases k - i,
    {
        before.push(chars[i]);
        proof {
            assert(chars@.take(i as int + 1) =~= chars@.take(i as int).push(chars@[i as int]));
        }
        i = i + 1;
    }
    let mut after: Vec<char> = Vec::new();
    let mut j: usize = k + 2;
    proof {
        assert(after@ =~= chars@.subrange(k as int + 2, j as int));
    }
    while j < chars.len()
        invariant
            k + 2 <= j <= chars@.len(),
            after@ == chars@.subrange(k as int + 2, j as int),
        decreases chars@.len() - j,
    {
        after.push(chars[j]);
        proof {
            assert(chars@.subrange(k as int + 2, j as int + 1) =~= chars@.subrange(
                k as int + 2,
                j as int,
            ).push(chars@[j as int]));
        }
        j = j + 1;
    }
    proof {
        assert(chars@.subrange(k as int + 2, chars@.len() as int) =~= chars@.skip(k as int + 2));
    }
    Some((before, after))
}

/// Reads a number of at most 255 from `chars`.
fn parse_small_number(chars: &Vec<char>) -> (n: Option<u8>)
    ensures
        n == small_number(chars@),
{
    let from: usize = if chars.len() > 0 && chars[0] == '+' {
        1
    } else {
        0
    };
    if from >= chars.len() {
        return None;
    }
    let mut value: u32 = 0;
    let mut i: usize = from;
    while i < chars.len()
        invariant
            from <= i <= chars@.len(),
            from == if chars@.len() > 0 && chars@[0] == '+' {
                1int
            } else {
                0int
            },
            forall|k: int| from <= k < i ==> is_digit(#[trigger] chars@[k]),
            value == digits_value(chars@, from as int, i as int),
            value <= 255,
        decreases chars@.len() - i,
    {
        let c = chars[i];
        if !('0' <= c && c <= '9') {
            proof {
                assert(!is_digit(chars@[i as int]));
            }
            return None;
        }
        let d: u32 = c as u32 - '0' as u32;
        let next = value * 10 + d;
        proof {
            assert(digits_value(chars@, from as int, i as int + 1) == value * 10 + d);
        }
        if next > 255 {
            proof {
                lemma_value_stays_large(chars@, from as int, i as int + 1, chars@.len() as int);
            }
            return None;
        }
        value = next;
        i = i + 1;
    }
    Some(value as u8)
}

/// A number stays above 255 when more characters are read.
proof fn lemma_value_stays_large(s: Seq<char>, from: int, mid: int, to: int)
    requires
        from <= mid <= to,
        digits_value(s, from, mid) > 255,
    ensures
        digits_value(s, from, to) > 255,
    decreases to - mid,
{
    if mid < to {
        lemma_value_stays_large(s, from, mid, to - 1);
    }
}

/// The code point of a character is no surrogate and at most `0x10FFFF`.
proof fn lemma_scalar(x: char)
    ensures
        x as int <= 0xD7FF || 0xE000 <= x as int <= 0x10FFFF,
        x as u32 == x as int,
{
}

/// The characters from `first` up to the code point `code`, not included.
pub open spec fn chars_below(first: char, code: int) -> Set<char> {
    Set::new(|c: char| first as int <= c as int && (c as int) < code)
}

/// The characters from `first` to `last`.
fn range_of_chars(first: char, last: char) -> (chars: CharSet)
    requires
        first <= last,
    ensures
        chars.wf(),
        chars@ == chars_between(first, last),
{
    let mut chars = CharSet::new();
    let end: u32 = last as u32;
    let mut code: u32 = first as u32;
    proof {
        assert(chars@ =~= chars_below(first, code as int));
    }
    while code <= end
        invariant
            chars.wf(),
            end == last as u32,
            first as u32 <= code <= end + 1,
            chars@ == chars_below(first, code as int),
        decreases end + 1 - code,
    {
        let ghost before = chars@;
        match char::from_u32(code) {
            Some(c) => {
                chars.insert(c);
                proof {
                    assert(c as u32 == code);
                    assert forall|x: char| chars@.contains(x) <==> chars_below(
                        first,
                        code as int + 1,
                    ).contains(x) by {
                        if x as int == code as int {
                            assert(x == c);
                        }
                    }
                    assert(chars@ =~= chars_below(first, code as int + 1));
                }
            },
            None => {
                proof {
                    assert forall|x: char| chars@.contains(x) <==> chars_below(
                        first,
                        code as int + 1,
                    ).contains(x) by {
                        lemma_scalar(x);
                    }
                    assert(chars@ =~= chars_below(first, code as int + 1));
                }
            },
        }
        code = code + 1;
    }
    proof {
        assert forall|x: char| chars@.contains(x) <==> chars_between(first, last).contains(x) by {
        }
        assert(chars@ =~= chars_between(first, last));
    }
    chars
}

/// The digits `first` to `last`.
fn range_of_digits(first: u8, last: u8) -> (chars: CharSet)
    requires
        first <= last <= 9,
    ensures
        chars.wf(),
        chars@ == digits_between(first, last),
{
    let mut chars = CharSet::new();
    let mut n: u8 = first;
    proof {
        assert(chars@ =~= Set::new(|c: char| exists|k: nat| first <= k < n && c == digit(k)));
    }
    while n <= last
        invariant
            chars.wf(),
            first <= n <= last + 1,
            last <= 9,
            chars@ == Set::new(|c: char| exists|k: nat| first <= k < n && c == digit(k)),
        decreases last + 1 - n,
    {
        let c = (48u8 + n) as char;
        chars.insert(c);
        proof {
            assert(c == digit(n as nat));
            assert forall|x: char| chars@.contains(x) <==> (exists|k: nat|
                first <= k < n + 1 && x == digit(k)) by {
                if x == c {
                    let k0 = n as nat;
                    assert(first <= k0 && k0 < n + 1 && x == digit(k0));
                }
                if exists|k: nat| first <= k < n + 1 && x == digit(k) {
                    let k = choose|k: nat| first <= k < n + 1 && x == digit(k);
                    if k < n {
                        assert(first <= k < n && x == digit(k));
                    }
                }
            }
            assert(chars@ =~= Set::new(
                |x: char| exists|k: nat| first <= k < n + 1 && x == digit(k),
            ));
        }
        n = n + 1;
    }
    proof {
        assert(chars@ =~= digits_between(first, last));
    }
    chars
}

/// The characters of the character range `text`.
fn char_range_set(text: &str) -> (r: Result<CharSet, SpecifierError>)
    ensures
        chars_as(r, char_range(text@)),
{
    let chars = chars_of(text);
    match split_range(&chars) {
        None => Err(SpecifierError::MalformedCharRange),
        Some((before, after)) => {
            if before.len() == 0 {
                Err(SpecifierError::EmptyRangeStart)
            } else if after.len() == 0 {
                Err(SpecifierError::EmptyRangeEnd)
            } else if before[0] > after[0] {
                Err(SpecifierError::ReversedCharRange)
            } else {
                Ok(range_of_chars(before[0], after[0]))
            }
        },
    }
}

/// The characters of the numeric range `text`.
fn numeric_range_set(text: &str) -> (r: Result<CharSet, SpecifierError>)
    ensures
        chars_as(r, numeric_range(text@)),
{
    let chars = chars_of(text);
    match split_range(&chars) {
        None => Err(SpecifierError::MalformedNumericRange),
        Some((before, after)) => {
            let first = match parse_small_number(&before) {
                Some(n) => n,
                None => {
                    return Err(SpecifierError::InvalidRangeStartNumber);
                },
            };
            let last = match parse_small_number(&after) {
                Some(n) => n,
                None => {
                    return Err(SpecifierError::InvalidRangeEndNumber);
                },
            };
            if first > last {
                Err(SpecifierError::ReversedNumericRange)
            } else if first > 9 || last > 9 {
                Err(SpecifierError::NumericRangeOutOfBounds)
            } else {
                Ok(range_of_digits(first, last))
            }
        },
    }
}

impl YamlSymbolSpecifier {
    /// The set of characters that the specifier denotes.
    pub fn to_char_set(&self) -> (r: Result<CharSet, SpecifierError>)
        ensures
            chars_as(r, specifier_chars(*self)),
    {
        let mut char_set = CharSet::new();
        match self {
            YamlSymbolSpecifier::Literal(s) => {
                let chars = chars_of(s.as_str());
                let mut i: usize = 0;
                proof {
                    assert(char_set@ =~= chars@.take(0).to_set());
                }
                while i < chars.len()
                    invariant
                        i <= chars@.len(),
                        char_set.wf(),
                        char_set@ == chars@.take(i as int).to_set(),
                    decreases chars@.len() - i,
                {
                    char_set.insert(chars[i]);
                    proof {
                        let seen = chars@.take(i as int);
                        assert(chars@.take(i as int + 1) =~= seen.push(chars@[i as int]));
                        seen.lemma_push_to_set_commute(chars@[i as int]);
                    }
                    i = i + 1;
                }
                proof {
                    assert(chars@.take(i as int) =~= chars@);
                }
            },
            YamlSymbolSpecifier::Range(range_map) => {
                match &range_map.crange {
                    Some(crange) => {
                        match char_range_set(crange.as_str()) {
                            Ok(chars) => {
                                char_set.extend(&chars);
                                proof {
                                    assert(char_set@ =~= chars@);
                                }
                            },
                            Err(e) => {
                                return Err(e);
                            },
                        }
                    },
                    None => {},
                }
                match &range_map.nrange {
                    Some(nrange) => {
                        match numeric_range_set(nrange.as_str()) {
                            Ok(chars) => {
                                char_set.extend(&chars);
                            },
                            Err(e) => {
                                return Err(e);
                            },
                        }
                    },
                    None => {
                        proof {
                            assert(char_set@.union(Set::<char>::empty()) =~= char_set@);
                        }
                    },
                }
            },
        }
        Ok(char_set)
    }
}

/// The union of the sets that the specifiers denote.
pub fn union_of(specs: &Vec<YamlSymbolSpecifier>) -> (r: Result<CharSet, SpecifierError>)
    ensures
        chars_as(r, specifiers_chars(specs@)),
{
    let mut char_set = CharSet::new();
    let mut i: usize = 0;
    proof {
        assert(specs@.take(0) =~= Seq::<YamlSymbolSpecifier>::empty());
    }
    while i < specs.len()
        invariant
            i <= specs@.len(),
            char_set.wf(),
            specifiers_chars(specs@.take(i as int)) == Ok::<Set<char>, SpecifierError>(char_set@),
        decreases specs@.len() - i,
    {
        proof {
            assert(specs@.take(i as int + 1).drop_last() =~= specs@.take(i as int));
            assert(specs@.take(i as int + 1).last() == specs@[i as int]);
        }
        match specs[i].to_char_set() {
            Ok(chars) => {
                char_set.extend(&chars);
            },
            Err(e) => {
                proof {
                    lemma_error_stays(specs@, i as int + 1);
                }
                return Err(e);
            },
        }
        i = i + 1;
    }
    proof {
        assert(specs@.take(i as int) =~= specs@);
    }
    Ok(char_set)
}

/// An error among the first specifiers is the error of them all.
proof fn lemma_error_stays(specs: Seq<YamlSymbolSpecifier>, k: int)
    requires
        0 <= k <= specs.len(),
        specifiers_chars(specs.take(k)) is Err,
    ensures
        specifiers_chars(specs) == specifiers_chars(specs.take(k)),
    decreases specs.len() - k,
{
    if k < specs.len() {
        assert(specs.take(k + 1).drop_last() =~= specs.take(k));
        lemma_error_stays(specs, k + 1);
    } else {
        assert(specs.take(k) =~= specs);
    }
}

impl YamlTransitionOn {
    /// Resolves the trigger over the alphabet `full_alphabet`.
    pub fn to_transition_trigger(&self, full_alphabet: &CharSet) -> (r: Result<
        TransitionTrigger,
        SpecifierError,
    >)
        requires
            full_alphabet.wf(),
        ensures
            trigger_as(r, trigger_of(*self, full_alphabet@)),
    {
        match self {
            YamlTransitionOn::Single(spec) => match spec.to_char_set() {
                Ok(chars) => Ok(TransitionTrigger::Chars(chars)),
                Err(e) => Err(e),
            },
            YamlTransitionOn::Multiple(specs) => match union_of(specs) {
                Ok(chars) => Ok(TransitionTrigger::Chars(chars)),
                Err(e) => Err(e),
            },
            YamlTransitionOn::Keyword(kw) => match kw {
                YamlKeyword::Alphabet => Ok(TransitionTrigger::Chars(full_alphabet.duplicate())),
                YamlKeyword::Epsilon => Ok(TransitionTrigger::Epsilon),
            },
            YamlTransitionOn::Except { except } => {
                let except_chars = match except {
                    YamlExceptValue::Single(spec) => match spec.to_char_set() {
                        Ok(chars) => chars,
                        Err(e) => {
                            return Err(e);
                        },
                    },
                    YamlExceptValue::Multiple(specs) => match union_of(specs) {
                        Ok(chars) => chars,
                        Err(e) => {
                            return Err(e);
                        },
                    },
                };
                Ok(TransitionTrigger::Chars(full_alphabet.difference(&except_chars)))
            },
        }
    }
}

/// The alphabet that the specifiers denote together.
pub fn read_alphabet(yaml_alphabet: &Vec<YamlSymbolSpecifier>) -> (r: Result<
    CharSet,
    SpecifierError,
>)
    ensures
        chars_as(r, specifiers_chars(yaml_alphabet@)),
{
    union_of(yaml_alphabet)
}

} // verus!
