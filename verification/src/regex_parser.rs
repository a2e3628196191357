//! Regular expressions: the expression tree and the recursive-descent parser
//! that builds it from the surface syntax.
//!
//! ```text
//! alternate := concat ('|' concat)*
//! concat    := postfix+
//! postfix   := term ('*' | '+' | '?' | '^' DIGIT+)*
//! term      := '(' alternate ')' | literal
//! ```

pub use crate::thompson::{expr_to_nfa, NfaBuilder};

use crate::charset::CharSet;
use crate::determinize::{determinizes, labelled, over};
use crate::dfa::Dfa;
use crate::error::{FsmError, RegexError};
use crate::indexing::{is_indexing, key_index, key_pairs, key_views, lemma_indexing_items};
use crate::language::{
    denotes, lemma_run_reads_labels, lemma_thompson_correct, lemma_tracked_states_are_runs,
    reach_in,
};
use crate::nfa::{states_after, Edge, Nfa};
use crate::parser::Fsm;
use crate::stateset::StateSet;
use crate::text::{
    decimal, digits_value, is_digit, lemma_decimal_injective, push_decimal, string_of,
};
use crate::thompson::{
    count_states, fragment_end, fragment_start, lemma_thompson_bounds, state_count, thompson,
    thompson_seq,
};
use vstd::prelude::*;
use vstd::string::StringExecFns;

verus! {

/// A regular expression.
#[derive(Debug, PartialEq)]
pub enum Expression {
    /// The empty string.
    Epsilon,
    /// A single character.
    Literal(char),
    /// The first expression followed by the second.
    Concat(Box<Expression>, Box<Expression>),
    /// Either of the two expressions.
    Alternate(Box<Expression>, Box<Expression>),
    /// Zero or more repetitions of the expression.
    Star(Box<Expression>),
}

impl Clone for Expression {
    fn clone(&self) -> (copy: Self)
        ensures
            copy == *self,
        decreases self,
    {
        match self {
            Expression::Epsilon => Expression::Epsilon,
            Expression::Literal(c) => Expression::Literal(*c),
            Expression::Concat(a, b) => Expression::Concat(
                Box::new((&**a).clone()),
                Box::new((&**b).clone()),
            ),
            Expression::Alternate(a, b) => Expression::Alternate(
                Box::new((&**a).clone()),
                Box::new((&**b).clone()),
            ),
            Expression::Star(a) => Expression::Star(Box::new((&**a).clone())),
        }
    }
}

/// What a parser yields in the model: the expression and the position that
/// follows it, or the reason for rejecting the input.
pub type Parsed = Result<(Expression, int), RegexError>;

/// `a` followed by `b`.
pub open spec fn concat(a: Expression, b: Expression) -> Expression {
    Expression::Concat(Box::new(a), Box::new(b))
}

/// `a` or `b`.
pub open spec fn alternate(a: Expression, b: Expression) -> Expression {
    Expression::Alternate(Box::new(a), Box::new(b))
}

/// Any number of `a`.
pub open spec fn star(a: Expression) -> Expression {
    Expression::Star(Box::new(a))
}

/// One or more `a`: `a` followed by any number of `a`.
pub open spec fn plus(a: Expression) -> Expression {
    concat(a, star(a))
}

/// `a` or nothing.
pub open spec fn optional(a: Expression) -> Expression {
    alternate(a, Expression::Epsilon)
}

/// `a` taken `n` times in a row, nested to the left; `a` itself for `n <= 1`.
pub open spec fn power(a: Expression, n: nat) -> Expression
    decreases n,
{
    if n <= 1 {
        a
    } else {
        concat(power(a, (n - 1) as nat), a)
    }
}

/// Whether `c` is one of the operators that may not start an atom.
pub open spec fn is_operator(c: char) -> bool {
    c == '|' || c == '*' || c == '+' || c == '?' || c == '^'
}

/// The position of the first character at or after `pos` that is no digit.
pub open spec fn digits_end(s: Seq<char>, pos: int) -> int
    decreases s.len() - pos,
{
    if 0 <= pos < s.len() && is_digit(s[pos]) {
        digits_end(s, pos + 1)
    } else {
        pos
    }
}

/// An atom at `pos`: a parenthesized alternation or a literal character.
pub open spec fn spec_parse_term(s: Seq<char>, pos: int) -> Parsed
    decreases s.len() - pos, 0int,
{
    if !(0 <= pos < s.len()) {
        Err(RegexError::UnexpectedEnd)
    } else if s[pos] == '(' {
        match spec_parse_alternate(s, pos + 1) {
            Ok((inner, next)) => if 0 <= next < s.len() && s[next] == ')' {
                Ok((inner, next + 1))
            } else {
                Err(RegexError::MissingCloseParen)
            },
            Err(e) => Err(e),
        }
    } else if s[pos] == ')' {
        Err(RegexError::UnexpectedCloseParen)
    } else if is_operator(s[pos]) {
        Err(RegexError::UnexpectedOperator(s[pos]))
    } else {
        Ok((Expression::Literal(s[pos]), pos + 1))
    }
}

/// The postfix operators that follow `expr` at `pos`, applied from left to
/// right.
pub open spec fn spec_postfix_rest(s: Seq<char>, expr: Expression, pos: int) -> Parsed
    decreases s.len() - pos,
{
    if !(0 <= pos < s.len()) {
        Ok((expr, pos))
    } else if s[pos] == '*' {
        spec_postfix_rest(s, star(expr), pos + 1)
    } else if s[pos] == '+' {
        spec_postfix_rest(s, plus(expr), pos + 1)
    } else if s[pos] == '?' {
        spec_postfix_rest(s, optional(expr), pos + 1)
    } else if s[pos] == '^' {
        let end = digits_end(s, pos + 1);
        let n = digits_value(s, pos + 1, end);
        if end == pos + 1 {
            Err(RegexError::MissingExponent)
        } else if n > u32::MAX {
            Err(RegexError::ExponentTooLarge)
        } else if n == 0 {
            Err(RegexError::ZeroExponent)
        } else if pos < end <= s.len() {
            spec_postfix_rest(s, power(expr, n), end)
        } else {
            Err(RegexError::MissingExponent)
        }
    } else {
        Ok((expr, pos))
    }
}

/// An atom at `pos` with the postfix operators that follow it.
pub open spec fn spec_parse_postfix(s: Seq<char>, pos: int) -> Parsed
    decreases s.len() - pos, 1int,
{
    match spec_parse_term(s, pos) {
        Ok((expr, next)) => spec_postfix_rest(s, expr, next),
        Err(e) => Err(e),
    }
}

/// The operands that follow `left` at `pos` by juxtaposition, up to the end
/// of the input, a `)` or a `|`.
pub open spec fn spec_concat_rest(s: Seq<char>, left: Expression, pos: int) -> Parsed
    decreases s.len() - pos, 2int,
{
    if 0 <= pos < s.len() && s[pos] != ')' && s[pos] != '|' {
        match spec_parse_postfix(s, pos) {
            Ok((right, next)) => if pos < next <= s.len() {
                spec_concat_rest(s, concat(left, right), next)
            } else {
                Err(RegexError::UnexpectedEnd)
            },
            Err(e) => Err(e),
        }
    } else {
        Ok((left, pos))
    }
}

/// One or more operands at `pos`, concatenated to the left.
pub open spec fn spec_parse_concat(s: Seq<char>, pos: int) -> Parsed
    decreases s.len() - pos, 3int,
{
    match spec_parse_postfix(s, pos) {
        Ok((left, next)) => if pos <= next <= s.len() {
            spec_concat_rest(s, left, next)
        } else {
            Err(RegexError::UnexpectedEnd)
        },
        Err(e) => Err(e),
    }
}

/// The alternatives that follow `left` at `pos`, each after a `|`.
pub open spec fn spec_alternate_rest(s: Seq<char>, left: Expression, pos: int) -> Parsed
    decreases s.len() - pos, 4int,
{
    if 0 <= pos < s.len() && s[pos] == '|' {
        match spec_parse_concat(s, pos + 1) {
            Ok((right, next)) => if pos < next <= s.len() {
                spec_alternate_rest(s, alternate(left, right), next)
            } else {
                Err(RegexError::UnexpectedEnd)
            },
            Err(e) => Err(e),
        }
    } else {
        Ok((left, pos))
    }
}

/// One or more concatenations at `pos` separated by `|`, alternated to the
/// left.
pub open spec fn spec_parse_alternate(s: Seq<char>, pos: int) -> Parsed
    decreases s.len() - pos, 5int,
{
    match spec_parse_concat(s, pos) {
        Ok((left, next)) => if pos <= next <= s.len() {
            spec_alternate_rest(s, left, next)
        } else {
            Err(RegexError::UnexpectedEnd)
        },
        Err(e) => Err(e),
    }
}

/// The expression that the whole of `s` spells, where `s` holds no
/// whitespace.
pub open spec fn spec_parse(s: Seq<char>) -> Result<Expression, RegexError> {
    match spec_parse_alternate(s, 0) {
        Ok((expr, next)) => if next < s.len() {
            Err(RegexError::TrailingInput)
        } else {
            Ok(expr)
        },
        Err(e) => Err(e),
    }
}

/// Whether the executable result `r` is the modelled result `p`.
pub open spec fn parsed_as(r: Result<(Expression, usize), RegexError>, p: Parsed) -> bool {
    match r {
        Ok((expr, next)) => p == Ok::<(Expression, int), RegexError>((expr, next as int)),
        Err(e) => p == Err::<(Expression, int), RegexError>(e),
    }
}

/// Whether `c` counts as whitespace: what `char::is_whitespace` returns, the
/// Unicode property `White_Space`.
pub uninterp spec fn is_whitespace(c: char) -> bool;

/// `char::is_whitespace` depends on the character alone.
pub assume_specification[ char::is_whitespace ](c: char) -> (b: bool)
    ensures
        b == is_whitespace(c),
;

/// `s` without its whitespace characters.
pub open spec fn strip_whitespace(s: Seq<char>) -> Seq<char>
    decreases s.len(),
{
    if s.len() == 0 {
        s
    } else if is_whitespace(s.last()) {
        strip_whitespace(s.drop_last())
    } else {
        strip_whitespace(s.drop_last()).push(s.last())
    }
}

/// The expression that the pattern `raw` spells: an empty pattern is
/// rejected, whitespace is ignored, and the rest is parsed as a whole.
pub open spec fn spec_parse_pattern(raw: Seq<char>) -> Result<Expression, RegexError> {
    if raw.len() == 0 {
        Err(RegexError::EmptyPattern)
    } else {
        spec_parse(strip_whitespace(raw))
    }
}

/// Digits run up to the end of the input at most, and the run that starts
/// where one ends is empty.
pub proof fn lemma_digits_end(s: Seq<char>, pos: int)
    requires
        0 <= pos <= s.len(),
    ensures
        pos <= digits_end(s, pos) <= s.len(),
        forall|i: int| pos <= i < digits_end(s, pos) ==> is_digit(#[trigger] s[i]),
        digits_end(s, pos) < s.len() ==> !is_digit(s[digits_end(s, pos)]),
    decreases s.len() - pos,
{
    if pos < s.len() && is_digit(s[pos]) {
        lemma_digits_end(s, pos + 1);
    }
}

/// Whether the result `p` of a parser that started at `pos` ends after
/// `pos`, inside `s`.
pub open spec fn advances(s: Seq<char>, pos: int, p: Parsed) -> bool {
    p matches Ok((_, next)) ==> pos < next <= s.len()
}

/// Whether the result `p` of reading on from `pos` ends at or after `pos`,
/// inside `s`.
pub open spec fn stays(s: Seq<char>, pos: int, p: Parsed) -> bool {
    p matches Ok((_, next)) ==> pos <= next <= s.len()
}

/// Every parser consumes at least one character where it succeeds, and none
/// past the end of the input.
pub proof fn lemma_parsers_advance(s: Seq<char>, pos: int)
    requires
        0 <= pos,
    ensures
        advances(s, pos, spec_parse_term(s, pos)),
        advances(s, pos, spec_parse_postfix(s, pos)),
        advances(s, pos, spec_parse_concat(s, pos)),
        advances(s, pos, spec_parse_alternate(s, pos)),
    decreases s.len() - pos, 0int,
{
    if pos < s.len() {
        if s[pos] == '(' {
            lemma_parsers_advance(s, pos + 1);
        }
        match spec_parse_term(s, pos) {
            Ok((expr, next)) => {
                lemma_postfix_rest_stays(s, expr, next);
            },
            Err(_) => {},
        }
        match spec_parse_postfix(s, pos) {
            Ok((left, next)) => {
                lemma_concat_rest_stays(s, left, next);
            },
            Err(_) => {},
        }
        match spec_parse_concat(s, pos) {
            Ok((left, next)) => {
                lemma_alternate_rest_stays(s, left, next);
            },
            Err(_) => {},
        }
    }
}

/// Reading postfix operators stays inside the input.
pub proof fn lemma_postfix_rest_stays(s: Seq<char>, expr: Expression, pos: int)
    requires
        0 <= pos <= s.len(),
    ensures
        stays(s, pos, spec_postfix_rest(s, expr, pos)),
    decreases s.len() - pos,
{
    if pos < s.len() {
        if s[pos] == '*' {
            lemma_postfix_rest_stays(s, star(expr), pos + 1);
        } else if s[pos] == '+' {
            lemma_postfix_rest_stays(s, plus(expr), pos + 1);
        } else if s[pos] == '?' {
            lemma_postfix_rest_stays(s, optional(expr), pos + 1);
        } else if s[pos] == '^' {
            let end = digits_end(s, pos + 1);
            lemma_digits_end(s, pos + 1);
            if pos < end <= s.len() {
                lemma_postfix_rest_stays(s, power(expr, digits_value(s, pos + 1, end)), end);
            }
        }
    }
}

/// Reading further operands stays inside the input.
pub proof fn lemma_concat_rest_stays(s: Seq<char>, left: Expression, pos: int)
    requires
        0 <= pos <= s.len(),
    ensures
        stays(s, pos, spec_concat_rest(s, left, pos)),
    decreases s.len() - pos, 2int,
{
    if pos < s.len() && s[pos] != ')' && s[pos] != '|' {
        lemma_parsers_advance(s, pos);
        match spec_parse_postfix(s, pos) {
            Ok((right, next)) => {
                lemma_concat_rest_stays(s, concat(left, right), next);
            },
            Err(_) => {},
        }
    }
}

/// Reading further alternatives stays inside the input.
pub proof fn lemma_alternate_rest_stays(s: Seq<char>, left: Expression, pos: int)
    requires
        0 <= pos <= s.len(),
    ensures
        stays(s, pos, spec_alternate_rest(s, left, pos)),
    decreases s.len() - pos, 4int,
{
    if pos < s.len() && s[pos] == '|' {
        lemma_parsers_advance(s, pos + 1);
        match spec_parse_concat(s, pos + 1) {
            Ok((right, next)) => {
                lemma_alternate_rest_stays(s, alternate(left, right), next);
            },
            Err(_) => {},
        }
    }
}

/// Tells whether `c` is a decimal digit.
fn is_digit_char(c: char) -> (b: bool)
    ensures
        b == is_digit(c),
{
    '0' <= c && c <= '9'
}

/// Reads the exponent whose first digit is expected at `start`: the number
/// and the position after its last digit.
fn parse_exponent(chars: &Vec<char>, start: usize) -> (r: Result<(u32, usize), RegexError>)
    requires
        start <= chars.len(),
    ensures
        match r {
            Ok((n, end)) => {
                &&& end == digits_end(chars@, start as int)
                &&& start < end <= chars.len()
                &&& n == digits_value(chars@, start as int, end as int)
                &&& n > 0
            },
            Err(e) => {
                let end = digits_end(chars@, start as int);
                let n = digits_value(chars@, start as int, end);
                if end == start {
                    e == RegexError::MissingExponent
                } else if n > u32::MAX {
                    e == RegexError::ExponentTooLarge
                } else {
                    n == 0 && e == RegexError::ZeroExponent
                }
            },
        },
{
    let mut end: usize = start;
    let mut n: u64 = 0;
    let mut overflow = false;
    proof {
        lemma_digits_end(chars@, start as int);
    }
    while end < chars.len() && is_digit_char(chars[end])
        invariant
            start <= end <= chars.len(),
            digits_end(chars@, end as int) == digits_end(chars@, start as int),
            forall|i: int| start <= i < end ==> is_digit(#[trigger] chars@[i]),
            !overflow ==> n == digits_value(chars@, start as int, end as int) && n <= u32::MAX,
            overflow ==> digits_value(chars@, start as int, end as int) > u32::MAX,
        decreases chars.len() - end,
    {
        let d: u64 = (chars[end] as u32 - '0' as u32) as u64;
        proof {
            assert(digits_value(chars@, start as int, end as int + 1) == digits_value(
                chars@,
                start as int,
                end as int,
            ) * 10 + (chars@[end as int] as u32 - '0' as u32));
        }
        if !overflow {
            n = n * 10 + d;
            if n > u32::MAX as u64 {
                overflow = true;
            }
        }
        end = end + 1;
    }
    if end == start {
        Err(RegexError::MissingExponent)
    } else if overflow {
        Err(RegexError::ExponentTooLarge)
    } else if n == 0 {
        Err(RegexError::ZeroExponent)
    } else {
        Ok((n as u32, end))
    }
}

/// `base` repeated `n` times.
fn repeat(base: Expression, n: u32) -> (r: Expression)
    requires
        n >= 1,
    ensures
        r == power(base, n as nat),
{
    let mut expr = base.clone();
    let mut i: u32 = 1;
    while i < n
        invariant
            1 <= i <= n,
            expr == power(base, i as nat),
        decreases n - i,
    {
        expr = Expression::Concat(Box::new(expr), Box::new(base.clone()));
        i = i + 1;
    }
    expr
}

/// Parses an atom at `pos`: a parenthesized alternation or a literal.
pub fn parse_term(chars: &Vec<char>, pos: usize) -> (r: Result<(Expression, usize), RegexError>)
    ensures
        parsed_as(r, spec_parse_term(chars@, pos as int)),
        r matches Ok((_, next)) ==> pos < next <= chars.len(),
    decreases chars.len() - pos, 0int,
{
    if pos >= chars.len() {
        return Err(RegexError::UnexpectedEnd);
    }
    let c = chars[pos];
    if c == '(' {
        match parse_alternate(chars, pos + 1) {
            Ok((inner, next)) => {
                if next < chars.len() && chars[next] == ')' {
                    Ok((inner, next + 1))
                } else {
                    Err(RegexError::MissingCloseParen)
                }
            },
            Err(e) => Err(e),
        }
    } else if c == ')' {
        Err(RegexError::UnexpectedCloseParen)
    } else if c == '|' || c == '*' || c == '+' || c == '?' || c == '^' {
        Err(RegexError::UnexpectedOperator(c))
    } else {
        Ok((Expression::Literal(c), pos + 1))
    }
}

/// Parses an atom at `pos` and the postfix operators `*`, `+`, `?` and `^n`
/// that follow it.
pub fn parse_postfix(chars: &Vec<char>, pos: usize) -> (r: Result<
    (Expression, usize),
    RegexError,
>)
    ensures
        parsed_as(r, spec_parse_postfix(chars@, pos as int)),
        r matches Ok((_, next)) ==> pos < next <= chars.len(),
    decreases chars.len() - pos, 1int,
{
    let (mut expr, mut p) = match parse_term(chars, pos) {
        Ok(found) => found,
        Err(e) => {
            return Err(e);
        },
    };
    while p < chars.len() && (chars[p] == '*' || chars[p] == '+' || chars[p] == '?' || chars[p]
        == '^')
        invariant
            pos < p <= chars.len(),
            spec_postfix_rest(chars@, expr, p as int) == spec_parse_postfix(chars@, pos as int),
        decreases chars.len() - p,
    {
        let c = chars[p];
        if c == '*' {
            expr = Expression::Star(Box::new(expr));
            p = p + 1;
        } else if c == '+' {
            let copy = expr.clone();
            expr = Expression::Concat(Box::new(copy), Box::new(Expression::Star(Box::new(expr))));
            p = p + 1;
        } else if c == '?' {
            expr = Expression::Alternate(Box::new(expr), Box::new(Expression::Epsilon));
            p = p + 1;
        } else {
            match parse_exponent(chars, p + 1) {
                Ok((n, end)) => {
                    expr = repeat(expr, n);
                    p = end;
                },
                Err(e) => {
                    return Err(e);
                },
            }
        }
    }
    Ok((expr, p))
}

/// Parses one or more operands at `pos`, joined by juxtaposition.
pub fn parse_concat(chars: &Vec<char>, pos: usize) -> (r: Result<(Expression, usize), RegexError>)
    ensures
        parsed_as(r, spec_parse_concat(chars@, pos as int)),
        r matches Ok((_, next)) ==> pos < next <= chars.len(),
    decreases chars.len() - pos, 3int,
{
    let (mut left, mut p) = match parse_postfix(chars, pos) {
        Ok(found) => found,
        Err(e) => {
            return Err(e);
        },
    };
    while p < chars.len() && chars[p] != ')' && chars[p] != '|'
        invariant
            pos < p <= chars.len(),
            spec_concat_rest(chars@, left, p as int) == spec_parse_concat(chars@, pos as int),
        decreases chars.len() - p,
    {
        match parse_postfix(chars, p) {
            Ok((right, next)) => {
                left = Expression::Concat(Box::new(left), Box::new(right));
                p = next;
            },
            Err(e) => {
                return Err(e);
            },
        }
    }
    Ok((left, p))
}

/// Parses one or more concatenations at `pos`, separated by `|`.
pub fn parse_alternate(chars: &Vec<char>, pos: usize) -> (r: Result<
    (Expression, usize),
    RegexError,
>)
    ensures
        parsed_as(r, spec_parse_alternate(chars@, pos as int)),
        r matches Ok((_, next)) ==> pos < next <= chars.len(),
    decreases chars.len() - pos, 5int,
{
    let (mut left, mut p) = match parse_concat(chars, pos) {
        Ok(found) => found,
        Err(e) => {
            return Err(e);
        },
    };
    while p < chars.len() && chars[p] == '|'
        invariant
            pos < p <= chars.len(),
            spec_alternate_rest(chars@, left, p as int) == spec_parse_alternate(
                chars@,
                pos as int,
            ),
        decreases chars.len() - p,
    {
        match parse_concat(chars, p + 1) {
            Ok((right, next)) => {
                left = Expression::Alternate(Box::new(left), Box::new(right));
                p = next;
            },
            Err(e) => {
                return Err(e);
            },
        }
    }
    Ok((left, p))
}

/// Parses the whole of `chars`, which holds no whitespace, as one expression.
pub fn parse_stripped(chars: &Vec<char>) -> (r: Result<Expression, RegexError>)
    ensures
        r == spec_parse(chars@),
{
    match parse_alternate(chars, 0) {
        Ok((expr, next)) => {
            if next < chars.len() {
                Err(RegexError::TrailingInput)
            } else {
                Ok(expr)
            }
        },
        Err(e) => Err(e),
    }
}

/// The characters of `raw` that are no whitespace, in order.
pub fn without_whitespace(raw: &str) -> (chars: Vec<char>)
    ensures
        chars@ == strip_whitespace(raw@),
{
    let mut chars: Vec<char> = Vec::new();
    for c in it: raw.chars()
        invariant
            it.seq() == raw@,
            chars@ == strip_whitespace(raw@.take(it.index() as int)),
    {
        proof {
            let i = it.index() as int;
            assert(raw@.take(i + 1).drop_last() =~= raw@.take(i));
            assert(raw@.take(i + 1).last() == c);
        }
        if !c.is_whitespace() {
            chars.push(c);
        }
    }
    proof {
        assert(raw@.take(raw@.len() as int) =~= raw@);
    }
    chars
}

/// Parses a pattern into an expression. Whitespace in the pattern is
/// ignored; an empty pattern is an error.
pub fn parse(raw: &str) -> (r: Result<Expression, RegexError>)
    ensures
        r == spec_parse_pattern(raw@),
{
    if raw.is_empty() {
        return Err(RegexError::EmptyPattern);
    }
    let chars = without_whitespace(raw);
    parse_stripped(&chars)
}


/// The key of the state with index `i` of an automaton built from a
/// pattern: `q` and the decimal numeral of `i`.
pub open spec fn state_key(i: nat) -> Seq<char> {
    seq!['q'] + decimal(i)
}

/// The keys `q0`, `q1`, ... of `n` states.
pub open spec fn state_keys(n: nat) -> Seq<Seq<char>> {
    Seq::new(n, |i: int| state_key(i as nat))
}

/// The characters on which a transition of `edges` fires.
pub open spec fn literals(edges: Set<Edge>) -> Set<char> {
    Set::new(|c: char| exists|p: usize, q: usize| edges.contains((p, Some(c), q)))
}

/// The map of the keys `q0`, `q1`, ... of `n` states to their indices.
fn numbered_keys(n: usize) -> (m: bimap::BiMap<String, usize>)
    ensures
        is_indexing(key_pairs(m), state_keys(n as nat)),
{
    let mut keys: Vec<String> = Vec::new();
    let mut i: usize = 0;
    while i < n
        invariant
            i <= n,
            key_views(keys@) == state_keys(i as nat),
        decreases n - i,
    {
        let mut text: Vec<char> = Vec::new();
        text.push('q');
        push_decimal(&mut text, i);
        let key = string_of(&text);
        let ghost before = key_views(keys@);
        keys.push(key);
        proof {
            assert(text@ =~= state_key(i as nat));
            assert(key_views(keys@) =~= before.push(key@));
            assert(key_views(keys@) =~= state_keys((i + 1) as nat));
        }
        i = i + 1;
    }
    proof {
        let views = state_keys(n as nat);
        assert forall|x: int, y: int|
            0 <= x < views.len() && 0 <= y < views.len() && x != y implies views[x] != views[y] by {
            if views[x] == views[y] {
                assert(views[x].drop_first() =~= decimal(x as nat));
                assert(views[y].drop_first() =~= decimal(y as nat));
                lemma_decimal_injective(x as nat, y as nat);
            }
        }
    }
    key_index(&keys)
}

/// The characters on which a transition of `transitions` fires.
fn literal_set(transitions: &Vec<Edge>) -> (chars: CharSet)
    ensures
        chars.wf(),
        chars@ == literals(transitions@.to_set()),
{
    let mut chars = CharSet::new();
    let mut i: usize = 0;
    proof {
        assert(chars@ =~= literals(transitions@.take(0).to_set()));
    }
    while i < transitions.len()
        invariant
            i <= transitions@.len(),
            chars.wf(),
            chars@ == literals(transitions@.take(i as int).to_set()),
        decreases transitions@.len() - i,
    {
        let (from, on, to) = transitions[i];
        let ghost seen = transitions@.take(i as int);
        let ghost more = transitions@.take(i as int + 1);
        proof {
            assert(more =~= seen.push(transitions@[i as int]));
            seen.lemma_push_to_set_commute(transitions@[i as int]);
        }
        let ghost before = chars@;
        match on {
            Some(c) => {
                chars.insert(c);
            },
            None => {},
        }
        proof {
            let e = transitions@[i as int];
            assert(more.to_set() == seen.to_set().insert(e));
            assert forall|x: char| chars@.contains(x) <==> literals(more.to_set()).contains(x) by {
                if literals(more.to_set()).contains(x) {
                    let (p, q) = choose|p: usize, q: usize|
                        more.to_set().contains((p, Some(x), q));
                    if (p, Some(x), q) != e {
                        assert(seen.to_set().contains((p, Some(x), q)));
                        assert(literals(seen.to_set()).contains(x));
                    }
                }
                if before.contains(x) {
                    let (p, q) = choose|p: usize, q: usize|
                        seen.to_set().contains((p, Some(x), q));
                    assert(more.to_set().contains((p, Some(x), q)));
                }
                if on == Some(x) {
                    assert(more.to_set().contains((from, Some(x), to)));
                }
            }
            assert(chars@ =~= literals(more.to_set()));
        }
        i = i + 1;
    }
    proof {
        assert(transitions@.take(i as int) =~= transitions@);
    }
    chars
}

/// Whether `nfa` and `dfa` are the automata of `expr`: `nfa` is its Thompson
/// automaton with the states `q0`, `q1`, ..., and `dfa` is the subset
/// construction of `nfa` over the characters that occur in `expr`, named
/// `name`.
pub open spec fn compiled(expr: Expression, name: Seq<char>, nfa: &Nfa, dfa: &Dfa) -> bool {
    &&& nfa.wf()
    &&& dfa.wf()
    &&& state_count(expr) <= usize::MAX
    &&& nfa.transitions@ == thompson_seq(expr, 0)
    &&& nfa.edges() == thompson(expr, 0)
    &&& nfa.start_state == fragment_start(expr, 0)
    &&& nfa.nfa_accept_states@ == set![fragment_end(expr, 0) as usize]
    &&& nfa.keys() == state_keys(state_count(expr))
    &&& dfa.keyed()
    &&& dfa.name@ == name
    &&& dfa.description is None
    &&& dfa.symbols().to_set() == literals(nfa.edges())
    &&& exists|subsets: Seq<Set<usize>>| #[trigger]
        determinizes(
            nfa.edges(),
            nfa.start_state,
            nfa.nfa_accept_states@,
            dfa.symbols(),
            subsets,
            dfa,
        ) && labelled(nfa.keys(), subsets, dfa)
    &&& forall|w: Seq<char>| #[trigger]
        dfa.accepts(w) <==> over(dfa.symbols(), w) && nfa.accepts(w)
    &&& forall|w: Seq<char>| #[trigger] nfa.accepts(w) <==> denotes(expr, w)
    &&& forall|w: Seq<char>| #[trigger] dfa.accepts(w) <==> denotes(expr, w)
}

/// The automaton that Thompson's construction makes of `expr` accepts what
/// `expr` denotes, and reads only characters that occur in `expr`.
pub proof fn lemma_thompson_language(expr: Expression, nfa: &Nfa, w: Seq<char>)
    requires
        state_count(expr) <= usize::MAX,
        nfa.edges() == thompson(expr, 0),
        nfa.start_state == fragment_start(expr, 0),
        nfa.nfa_accept_states@ == set![fragment_end(expr, 0) as usize],
    ensures
        nfa.accepts(w) <==> denotes(expr, w),
        denotes(expr, w) ==> forall|i: int|
            0 <= i < w.len() ==> literals(nfa.edges()).contains(#[trigger] w[i]),
{
    let g = nfa.edges();
    let s = nfa.start_state;
    let f = fragment_end(expr, 0) as usize;
    lemma_thompson_bounds(expr, 0);
    lemma_tracked_states_are_runs(g, s, w, f);
    lemma_thompson_correct(expr, 0, w);
    let reached = states_after(g, nfa.initial_states(), w);
    if nfa.accepts(w) {
        let q = choose|q: usize| reached.contains(q) && nfa.nfa_accept_states@.contains(q);
        assert(q == f);
    }
    if denotes(expr, w) {
        assert(reached.contains(f) && nfa.nfa_accept_states@.contains(f));
        let n = choose|n: nat| reach_in(g, s, w, f, n);
        assert forall|i: int| 0 <= i < w.len() implies literals(g).contains(#[trigger] w[i]) by {
            lemma_run_reads_labels(g, s, w, f, n, i);
        }
    }
}

/// Builds the automata of an expression: its Thompson automaton and the
/// subset construction of that. Fails where the expression needs more
/// states than the machine can number.
#[verifier::rlimit(60)]
pub fn compile(expr: &Expression, name: &str) -> (r: Result<Fsm, FsmError>)
    ensures
        match r {
            Ok(fsm) => fsm matches Fsm::Nfa { nfa, dfa } && compiled(*expr, name@, &nfa, &dfa),
            Err(e) => e == FsmError::TooManyStates && state_count(*expr) > usize::MAX,
        },
{
    let count = match count_states(expr) {
        Some(n) => n,
        None => {
            return Err(FsmError::TooManyStates);
        },
    };
    let mut builder = NfaBuilder::new();
    let (start_state, accept_state) = expr_to_nfa(expr, &mut builder);
    let nfa_state_keys = numbered_keys(builder.state_counter);
    let nfa = Nfa {
        transitions: builder.transitions,
        start_state,
        nfa_accept_states: StateSet::singleton(accept_state),
        nfa_state_keys,
    };
    proof {
        lemma_thompson_bounds(*expr, 0);
        lemma_indexing_items(key_pairs(nfa.nfa_state_keys), state_keys(count as nat));
        assert(nfa.edges() =~= thompson(*expr, 0));
        assert(nfa.transitions@ =~= thompson_seq(*expr, 0));
        assert forall|i: int| 0 <= i < nfa.transitions@.len() implies (#[trigger] nfa.transitions@[i]).0
            < nfa.num_states() && nfa.transitions@[i].2 < nfa.num_states() by {
            assert(nfa.edges().contains(nfa.transitions@[i]));
        }
    }
    proof {
        assert forall|i: int| 0 <= i < nfa.keys().len() implies crate::text::comma_free(
            #[trigger] nfa.keys()[i],
        ) by {
            let key = nfa.keys()[i];
            crate::text::lemma_decimal_digits(i as nat);
            assert forall|x: int| 0 <= x < key.len() implies #[trigger] key[x] != ',' by {
                if x > 0 {
                    assert(key[x] == decimal(i as nat)[x - 1]);
                    assert(is_digit(decimal(i as nat)[x - 1]));
                }
            }
        }
    }
    let alphabet_set = literal_set(&nfa.transitions);
    match nfa.to_dfa(name, None, &alphabet_set) {
        Ok(dfa) => {
            proof {
                alphabet_set.lemma_seq();
                assert(dfa.symbols() == alphabet_set.seq()) by {
                    let subsets = choose|subsets: Seq<Set<usize>>| #[trigger]
                        determinizes(
                            nfa.edges(),
                            nfa.start_state,
                            nfa.nfa_accept_states@,
                            alphabet_set.seq(),
                            subsets,
                            &dfa,
                        ) && labelled(nfa.keys(), subsets, &dfa);
                }
                assert forall|w: Seq<char>| #[trigger] nfa.accepts(w) <==> denotes(*expr, w) by {
                    lemma_thompson_language(*expr, &nfa, w);
                }
                assert forall|w: Seq<char>| #[trigger] dfa.accepts(w) <==> denotes(*expr, w) by {
                    lemma_thompson_language(*expr, &nfa, w);
                    if denotes(*expr, w) {
                        assert forall|i: int| 0 <= i < w.len() implies dfa.symbols().contains(
                            #[trigger] w[i],
                        ) by {
                            assert(literals(nfa.edges()).contains(w[i]));
                            assert(dfa.symbols().to_set().contains(w[i]));
                        }
                    }
                }
            }
            Ok(Fsm::Nfa { nfa, dfa })
        },
        Err(e) => Err(e),
    }
}

/// The name of the automaton of a pattern.
pub open spec fn pattern_name(regex: Seq<char>) -> Seq<char> {
    "regex: "@ + regex
}

/// Converts a pattern into a runnable automaton.
///
/// The pattern is made of literal characters, juxtaposition, `|`, `*`, `+`,
/// `?`, `^n` and parentheses; whitespace is ignored.
pub fn from_regex(regex: &str) -> (r: Result<Fsm, FsmError>)
    ensures
        match r {
            Ok(fsm) => spec_parse_pattern(regex@) matches Ok(expr) && fsm matches Fsm::Nfa {
                nfa,
                dfa,
            } && compiled(expr, pattern_name(regex@), &nfa, &dfa),
            Err(e) => match spec_parse_pattern(regex@) {
                Ok(expr) => e == FsmError::TooManyStates && state_count(expr) > usize::MAX,
                Err(x) => e == FsmError::RegexSyntax(x),
            },
        },
{
    let expr = match parse(regex) {
        Ok(expr) => expr,
        Err(x) => {
            return Err(FsmError::RegexSyntax(x));
        },
    };
    let name = String::from_str("regex: ").concat(regex);
    compile(&expr, name.as_str())
}


/// Compiling is deterministic: any two automata of the same expression
/// accept the same inputs.
pub proof fn lemma_compiled_deterministic(
    expr: Expression,
    name: Seq<char>,
    nfa1: &Nfa,
    dfa1: &Dfa,
    nfa2: &Nfa,
    dfa2: &Dfa,
    w: Seq<char>,
)
    requires
        compiled(expr, name, nfa1, dfa1),
        compiled(expr, name, nfa2, dfa2),
    ensures
        dfa1.symbols() == dfa2.symbols(),
        nfa1.accepts(w) == nfa2.accepts(w),
        dfa1.accepts(w) == dfa2.accepts(w),
{
    crate::charset::lemma_increasing_unique(dfa1.symbols(), dfa2.symbols());
}

/// Patterns that spell the same expression have automata that accept the
/// same inputs; so `e+` and `ee*`, which are parsed alike.
pub proof fn lemma_same_expression_same_language(
    first: Seq<char>,
    second: Seq<char>,
    name1: Seq<char>,
    name2: Seq<char>,
    nfa1: &Nfa,
    dfa1: &Dfa,
    nfa2: &Nfa,
    dfa2: &Dfa,
    w: Seq<char>,
)
    requires
        spec_parse_pattern(first) is Ok,
        spec_parse_pattern(first) == spec_parse_pattern(second),
        compiled(spec_parse_pattern(first)->Ok_0, name1, nfa1, dfa1),
        compiled(spec_parse_pattern(second)->Ok_0, name2, nfa2, dfa2),
    ensures
        dfa1.accepts(w) == dfa2.accepts(w),
{
    crate::charset::lemma_increasing_unique(dfa1.symbols(), dfa2.symbols());
}


} // verus!
