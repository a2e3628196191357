//! Typed errors reported while an automaton is being constructed.

use vstd::prelude::*;

verus! {

/// Why a regular expression was rejected.
#[derive(Clone, Copy, Debug, PartialEq, Eq, Structural)]
pub enum RegexError {
    /// The pattern text is empty.
    EmptyPattern,
    /// An atom was expected where the pattern ends.
    UnexpectedEnd,
    /// A group was opened and not closed by `)`.
    MissingCloseParen,
    /// A `)` stands where an atom was expected.
    UnexpectedCloseParen,
    /// One of `| * + ? ^` stands where an atom was expected.
    UnexpectedOperator(char),
    /// Input is left over after a complete expression.
    TrailingInput,
    /// `^` is not followed by a decimal digit.
    MissingExponent,
    /// The digits after `^` do not fit in 32 bits.
    ExponentTooLarge,
    /// The exponent after `^` is zero.
    ZeroExponent,
}

/// Why a symbol specifier of an automaton description was rejected.
#[derive(Clone, Copy, Debug, PartialEq, Eq, Structural)]
pub enum SpecifierError {
    /// A character range does not consist of two parts around one `..`.
    MalformedCharRange,
    /// Nothing stands before the `..` of a character range.
    EmptyRangeStart,
    /// Nothing stands after the `..` of a character range.
    EmptyRangeEnd,
    /// The first character of a range is greater than the last.
    ReversedCharRange,
    /// A numeric range does not consist of two parts around one `..`.
    MalformedNumericRange,
    /// The lower bound of a numeric range is not a number of at most 255.
    InvalidRangeStartNumber,
    /// The upper bound of a numeric range is not a number of at most 255.
    InvalidRangeEndNumber,
    /// The lower bound of a numeric range is greater than the upper.
    ReversedNumericRange,
    /// A bound of a numeric range is greater than 9.
    NumericRangeOutOfBounds,
}

/// The kinds of failure of automaton construction.
#[derive(Clone, Copy, Debug, PartialEq, Eq, Structural)]
pub enum FsmError {
    /// The description is malformed.
    SpecSyntax(SpecifierError),
    /// The start state or a transition names a state that is not declared.
    UnknownState,
    /// A transition of a deterministic description fires on a character
    /// outside the declared alphabet.
    OutOfAlphabet(char),
    /// Two transitions of a deterministic description send the state with
    /// the given index to distinct targets on the same character.
    Ambiguity { state: usize, symbol: char },
    /// A deterministic description defines no transition for the state with
    /// the given index on the given character.
    IncompleteDfa { state: usize, symbol: char },
    /// A deterministic description holds an epsilon transition, leaving the
    /// state with the given index.
    EpsilonInDfa { state: usize },
    /// The regular expression is malformed.
    RegexSyntax(RegexError),
    /// The automaton would have more states than the machine can number.
    TooManyStates,
}

} // verus!
