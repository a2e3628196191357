//! Automata loaded from a declarative description: the parsed document, the
//! demands on a description that claims to be deterministic, and the loader.

pub use crate::nfa::Nfa;
pub use crate::symbols::{
    read_alphabet, TransitionTrigger, YamlExceptValue, YamlKeyword, YamlRangeMap,
    YamlSymbolSpecifier, YamlTransitionOn,
};

use crate::charset::{lemma_sorted_chars, sorted_chars, CharSet};
use crate::determinize::{determinizes, labelled, over};
use crate::dfa::{lemma_cell_in_table, Dfa, StateInfo};
use crate::error::FsmError;
use crate::indexing::{
    indexes, is_indexing, items_of, key_index, key_pairs, key_views, keys_clone,
    keys_get_by_left, keys_len, lemma_indexing_is_numbering, lemma_indexing_items, numbering,
    symbol_index, symbol_pairs, symbols_get_by_left, symbols_get_by_right, symbols_len,
};
use crate::nfa::Edge;
use crate::stateset::StateSet;
use crate::symbols::{specifiers_chars, trigger_of, Trigger};
use crate::text::{chars_of, lemma_text_lt_irreflexive, text_less, text_lt, texts_ascending};
use crate::thompson::{add_edge, NfaBuilder};
use bimap::BiMap;
use vstd::prelude::*;

verus! {

/// A loaded automaton: a deterministic one given as such, or a
/// nondeterministic one together with its subset construction.
#[derive(Debug)]
pub enum Fsm {
    Dfa(Dfa),
    Nfa { nfa: Nfa, dfa: Dfa },
}

/// The properties of a state as they are written.
#[derive(Debug, Clone)]
pub struct YamlStateProps {
    pub accept: bool,
    pub label: Option<String>,
}

/// A transition rule as it is written: the key of the target state and the
/// trigger.
#[derive(Debug, Clone)]
pub struct YamlTransitionMapping {
    pub to: String,
    pub on: YamlTransitionOn,
}

/// The rules that leave one state: the key of the state and its rules.
pub type YamlTransitions = (String, Vec<YamlTransitionMapping>);

/// A parsed description of an automaton.
#[derive(Debug)]
pub struct YamlDFA {
    pub name: String,
    /// Whether the description claims to be deterministic and complete.
    pub dfa: bool,
    pub description: Option<String>,
    /// The states in ascending order of their keys.
    pub states: Vec<(String, YamlStateProps)>,
    pub alphabet: Vec<YamlSymbolSpecifier>,
    pub start_state: String,
    /// The rules by source state, in ascending order of the source keys.
    pub transitions: Vec<YamlTransitions>,
}

/// The keys of the states.
pub open spec fn state_texts(states: Seq<(String, YamlStateProps)>) -> Seq<Seq<char>> {
    states.map_values(|s: (String, YamlStateProps)| s.0@)
}

/// The keys of the source states.
pub open spec fn source_texts(transitions: Seq<YamlTransitions>) -> Seq<Seq<char>> {
    transitions.map_values(|t: YamlTransitions| t.0@)
}

impl YamlDFA {
    /// The invariant of a parsed description: its states, and the sources of
    /// its rules, are listed in strictly ascending order of their keys.
    pub open spec fn wf(&self) -> bool {
        &&& texts_ascending(state_texts(self.states@))
        &&& texts_ascending(source_texts(self.transitions@))
    }

    /// Tells whether the invariant holds.
    pub fn is_well_formed(&self) -> (ok: bool)
        ensures
            ok == self.wf(),
    {
        let mut keys: Vec<Vec<char>> = Vec::new();
        let mut i: usize = 0;
        while i < self.states.len()
            invariant
                i <= self.states@.len(),
                crate::text::text_views(keys@) == state_texts(self.states@).take(i as int),
            decreases self.states@.len() - i,
        {
            let ghost before = crate::text::text_views(keys@);
            let text = chars_of(self.states[i].0.as_str());
            keys.push(text);
            proof {
                assert(crate::text::text_views(keys@) =~= before.push(text@));
                assert(state_texts(self.states@).take(i as int + 1) =~= state_texts(
                    self.states@,
                ).take(i as int).push(text@));
            }
            i = i + 1;
        }
        proof {
            assert(state_texts(self.states@).take(i as int) =~= state_texts(self.states@));
        }
        let mut sources: Vec<Vec<char>> = Vec::new();
        let mut j: usize = 0;
        while j < self.transitions.len()
            invariant
                j <= self.transitions@.len(),
                crate::text::text_views(sources@) == source_texts(self.transitions@).take(
                    j as int,
                ),
            decreases self.transitions@.len() - j,
        {
            let ghost before = crate::text::text_views(sources@);
            let text = chars_of(self.transitions[j].0.as_str());
            sources.push(text);
            proof {
                assert(crate::text::text_views(sources@) =~= before.push(text@));
                assert(source_texts(self.transitions@).take(j as int + 1) =~= source_texts(
                    self.transitions@,
                ).take(j as int).push(text@));
            }
            j = j + 1;
        }
        proof {
            assert(source_texts(self.transitions@).take(j as int) =~= source_texts(
                self.transitions@,
            ));
        }
        let first = ascending(&keys);
        let second = ascending(&sources);
        first && second
    }
}

/// Whether the texts strictly ascend.
fn ascending(texts: &Vec<Vec<char>>) -> (ok: bool)
    ensures
        ok == texts_ascending(crate::text::text_views(texts@)),
{
    let ghost views = crate::text::text_views(texts@);
    let mut i: usize = 1;
    while i < texts.len()
        invariant
            1 <= i,
            views == crate::text::text_views(texts@),
            forall|k: int| 0 < k < i && k < views.len() ==> text_lt(views[k - 1], #[trigger] views[k]),
        decreases texts@.len() - i,
    {
        proof {
            assert(views[i as int - 1] == texts@[i as int - 1]@);
            assert(views[i as int] == texts@[i as int]@);
        }
        if !text_less(&texts[i - 1], &texts[i]) {
            return false;
        }
        i = i + 1;
    }
    proof {
        assert forall|x: int, y: int| 0 <= x < y < views.len() implies text_lt(
            #[trigger] views[x],
            #[trigger] views[y],
        ) by {
            lemma_neighbours_ascend(views, x, y);
        }
    }
    true
}

/// Texts of which each comes before the next strictly ascend.
proof fn lemma_neighbours_ascend(views: Seq<Seq<char>>, x: int, y: int)
    requires
        0 <= x < y < views.len(),
        forall|k: int| 0 < k < views.len() ==> text_lt(views[k - 1], #[trigger] views[k]),
    ensures
        text_lt(views[x], views[y]),
    decreases y - x,
{
    assert(text_lt(views[y - 1], views[y]));
    if x < y - 1 {
        lemma_neighbours_ascend(views, x, y - 1);
        crate::text::lemma_text_lt_transitive(views[x], views[y - 1], views[y]);
    }
}

/// Strictly ascending texts differ from one another.
pub proof fn lemma_ascending_distinct(texts: Seq<Seq<char>>)
    requires
        texts_ascending(texts),
    ensures
        texts.no_duplicates(),
{
    assert forall|i: int, j: int| 0 <= i < texts.len() && 0 <= j < texts.len() && i != j implies texts[i]
        != texts[j] by {
        lemma_text_lt_irreflexive(texts[i]);
        if i < j {
            assert(text_lt(texts[i], texts[j]));
        } else {
            assert(text_lt(texts[j], texts[i]));
        }
    }
}

/// The index that `keys` gives to the state with the key `key`.
pub open spec fn lookup(keys: Map<Seq<char>, usize>, key: Seq<char>) -> Option<usize> {
    if keys.contains_key(key) {
        Some(keys[key])
    } else {
        None
    }
}

/// The table after state `src` is sent to `dest` on each of `chars` in
/// turn: a character outside the alphabet and a cell that already leads
/// elsewhere are errors.
pub open spec fn assign_chars(
    table: Seq<Option<usize>>,
    symbols: Map<char, usize>,
    width: int,
    src: usize,
    dest: usize,
    chars: Seq<char>,
) -> Result<Seq<Option<usize>>, FsmError>
    decreases chars.len(),
{
    if chars.len() == 0 {
        Ok(table)
    } else {
        let c = chars[0];
        if !symbols.contains_key(c) {
            Err(FsmError::OutOfAlphabet(c))
        } else {
            let k = src * width + symbols[c];
            match table[k] {
                Some(existing) => if existing != dest {
                    Err(FsmError::Ambiguity { state: src, symbol: c })
                } else {
                    assign_chars(table, symbols, width, src, dest, chars.drop_first())
                },
                None => assign_chars(
                    table.update(k, Some(dest)),
                    symbols,
                    width,
                    src,
                    dest,
                    chars.drop_first(),
                ),
            }
        }
    }
}

/// The table after the rules `mappings` of state `src` are applied in
/// turn: an unknown target, a malformed trigger and an epsilon trigger are
/// errors.
pub open spec fn assign_mappings(
    table: Seq<Option<usize>>,
    keys: Map<Seq<char>, usize>,
    symbols: Map<char, usize>,
    full: Set<char>,
    width: int,
    src: usize,
    mappings: Seq<YamlTransitionMapping>,
) -> Result<Seq<Option<usize>>, FsmError>
    decreases mappings.len(),
{
    if mappings.len() == 0 {
        Ok(table)
    } else {
        match lookup(keys, mappings[0].to@) {
            None => Err(FsmError::UnknownState),
            Some(dest) => match trigger_of(mappings[0].on, full) {
                Err(e) => Err(FsmError::SpecSyntax(e)),
                Ok(Trigger::Epsilon) => Err(FsmError::EpsilonInDfa { state: src }),
                Ok(Trigger::Chars(chars)) => match assign_chars(
                    table,
                    symbols,
                    width,
                    src,
                    dest,
                    sorted_chars(chars),
                ) {
                    Err(e) => Err(e),
                    Ok(next) => assign_mappings(
                        next,
                        keys,
                        symbols,
                        full,
                        width,
                        src,
                        mappings.drop_first(),
                    ),
                },
            },
        }
    }
}

/// The table after the rules of all source states are applied in turn: an
/// unknown source state is an error.
pub open spec fn assign_sources(
    table: Seq<Option<usize>>,
    keys: Map<Seq<char>, usize>,
    symbols: Map<char, usize>,
    full: Set<char>,
    width: int,
    transitions: Seq<YamlTransitions>,
) -> Result<Seq<Option<usize>>, FsmError>
    decreases transitions.len(),
{
    if transitions.len() == 0 {
        Ok(table)
    } else {
        match lookup(keys, transitions[0].0@) {
            None => Err(FsmError::UnknownState),
            Some(src) => match assign_mappings(
                table,
                keys,
                symbols,
                full,
                width,
                src,
                transitions[0].1@,
            ) {
                Err(e) => Err(e),
                Ok(next) => assign_sources(
                    next,
                    keys,
                    symbols,
                    full,
                    width,
                    transitions.drop_first(),
                ),
            },
        }
    }
}

/// The first empty cell of `table` at or after `from`.
pub open spec fn first_hole(table: Seq<Option<usize>>, from: int) -> Option<int>
    decreases table.len() - from,
{
    if from < 0 || from >= table.len() {
        None
    } else if table[from] is None {
        Some(from)
    } else {
        first_hole(table, from + 1)
    }
}

/// The targets that the cells of `table` hold.
pub open spec fn targets(table: Seq<Option<usize>>) -> Seq<usize> {
    Seq::new(table.len(), |k: int| table[k]->0)
}

/// The dense table of a deterministic description: the rules are applied
/// in turn to an empty table, which must be full in the end. The first
/// empty cell, row by row, is reported with its state and character.
pub open spec fn dfa_table(
    keys: Map<Seq<char>, usize>,
    symbols: Map<char, usize>,
    full: Set<char>,
    transitions: Seq<YamlTransitions>,
) -> Result<Seq<usize>, FsmError> {
    let height = keys.len() as int;
    let width = symbols.len() as int;
    if height * width > usize::MAX {
        Err(FsmError::TooManyStates)
    } else {
        let empty = Seq::new((height * width) as nat, |k: int| None::<usize>);
        match assign_sources(empty, keys, symbols, full, width, transitions) {
            Err(e) => Err(e),
            Ok(table) => match first_hole(table, 0) {
                Some(k) => Err(
                    FsmError::IncompleteDfa {
                        state: (k / width) as usize,
                        symbol: items_of(symbols)[k % width],
                    },
                ),
                None => Ok(targets(table)),
            },
        }
    }
}

/// The index that `state_bimap` gives to the state with the key
/// `state_key`.
pub fn get_state_idx(state_bimap: &BiMap<String, usize>, state_key: &str) -> (r: Result<
    usize,
    FsmError,
>)
    ensures
        match r {
            Ok(i) => lookup(key_pairs(*state_bimap), state_key@) == Some(i),
            Err(e) => e == FsmError::UnknownState && lookup(key_pairs(*state_bimap), state_key@)
                is None,
        },
{
    match keys_get_by_left(state_bimap, state_key) {
        Some(i) => Ok(i),
        None => Err(FsmError::UnknownState),
    }
}

/// The column that `alphabet_bimap` gives to the character `c`.
pub fn get_alphabet_idx(alphabet_bimap: &BiMap<char, usize>, c: char) -> (r: Result<
    usize,
    FsmError,
>)
    ensures
        match r {
            Ok(i) => symbol_pairs(*alphabet_bimap).contains_key(c) && symbol_pairs(
                *alphabet_bimap,
            )[c] == i,
            Err(e) => e == FsmError::OutOfAlphabet(c) && !symbol_pairs(
                *alphabet_bimap,
            ).contains_key(c),
        },
{
    match symbols_get_by_left(alphabet_bimap, c) {
        Some(i) => Ok(i),
        None => Err(FsmError::OutOfAlphabet(c)),
    }
}

/// Whether every cell of `table` that holds a target holds a state index
/// below `height`.
pub open spec fn targets_valid(table: Seq<Option<usize>>, height: int) -> bool {
    forall|k: int| 0 <= k < table.len() ==> ((#[trigger] table[k]) matches Some(d) ==> d < height)
}

/// Whether the outcome `r` with the table `after` is the modelled outcome
/// `p`.
pub open spec fn assigned(
    r: Result<(), FsmError>,
    after: Seq<Option<usize>>,
    p: Result<Seq<Option<usize>>, FsmError>,
) -> bool {
    match r {
        Ok(_) => p == Ok::<Seq<Option<usize>>, FsmError>(after),
        Err(e) => p == Err::<Seq<Option<usize>>, FsmError>(e),
    }
}

/// Sends state `src_idx` to `dest_idx` on each character of `on_chars`.
#[verifier::rlimit(60)]
fn assign_on_chars(
    table: &mut Vec<Option<usize>>,
    alphabet_bimap: &BiMap<char, usize>,
    state_count: usize,
    alphabet_size: usize,
    src_idx: usize,
    dest_idx: usize,
    on_chars: &CharSet,
) -> (r: Result<(), FsmError>)
    requires
        on_chars.wf(),
        indexes(symbol_pairs(*alphabet_bimap)),
        alphabet_size == symbol_pairs(*alphabet_bimap).len(),
        old(table)@.len() == state_count * alphabet_size,
        src_idx < state_count,
        dest_idx < state_count,
        targets_valid(old(table)@, state_count as int),
    ensures
        final(table)@.len() == old(table)@.len(),
        targets_valid(final(table)@, state_count as int),
        assigned(
            r,
            final(table)@,
            assign_chars(
                old(table)@,
                symbol_pairs(*alphabet_bimap),
                alphabet_size as int,
                src_idx,
                dest_idx,
                on_chars.seq(),
            ),
        ),
{
    let ghost symbols = symbol_pairs(*alphabet_bimap);
    let ghost chars = on_chars.seq();
    let ghost goal = assign_chars(table@, symbols, alphabet_size as int, src_idx, dest_idx, chars);
    let n = on_chars.len();
    let mut i: usize = 0;
    proof {
        assert(chars.skip(0) =~= chars);
    }
    while i < n
        invariant
            on_chars.wf(),
            chars == on_chars.seq(),
            n == chars.len(),
            i <= n,
            symbols == symbol_pairs(*alphabet_bimap),
            indexes(symbols),
            alphabet_size == symbols.len(),
            table@.len() == state_count * alphabet_size,
            table@.len() == old(table)@.len(),
            goal == assign_chars(
                old(table)@,
                symbols,
                alphabet_size as int,
                src_idx,
                dest_idx,
                chars,
            ),
            src_idx < state_count,
            dest_idx < state_count,
            targets_valid(table@, state_count as int),
            assign_chars(
                table@,
                symbols,
                alphabet_size as int,
                src_idx,
                dest_idx,
                chars.skip(i as int),
            ) == goal,
        decreases n - i,
    {
        let c = on_chars.get(i);
        proof {
            assert(chars.skip(i as int)[0] == c);
            assert(chars.skip(i as int).drop_first() =~= chars.skip(i as int + 1));
            lemma_indexing_items(symbols, items_of(symbols));
        }
        let alpha_idx = match get_alphabet_idx(alphabet_bimap, c) {
            Ok(a) => a,
            Err(e) => {
                return Err(e);
            },
        };
        proof {
            lemma_cell_in_table(
                src_idx as int,
                alpha_idx as int,
                state_count as int,
                alphabet_size as int,
            );
        }
        let table_size = table.len();
        let table_idx = src_idx * alphabet_size + alpha_idx;
        match table[table_idx] {
            Some(existing_dest_idx) => {
                if existing_dest_idx != dest_idx {
                    return Err(FsmError::Ambiguity { state: src_idx, symbol: c });
                }
            },
            None => {
                table.set(table_idx, Some(dest_idx));
            },
        }
        i = i + 1;
    }
    Ok(())
}

/// Applies the rules `mappings` of state `src_idx` to the table.
#[verifier::rlimit(60)]
fn assign_rules(
    table: &mut Vec<Option<usize>>,
    state_bimap: &BiMap<String, usize>,
    alphabet_bimap: &BiMap<char, usize>,
    full_alphabet_set: &CharSet,
    state_count: usize,
    alphabet_size: usize,
    src_idx: usize,
    mappings: &Vec<YamlTransitionMapping>,
) -> (r: Result<(), FsmError>)
    requires
        full_alphabet_set.wf(),
        indexes(key_pairs(*state_bimap)),
        state_count == key_pairs(*state_bimap).len(),
        indexes(symbol_pairs(*alphabet_bimap)),
        alphabet_size == symbol_pairs(*alphabet_bimap).len(),
        old(table)@.len() == state_count * alphabet_size,
        src_idx < state_count,
        targets_valid(old(table)@, state_count as int),
    ensures
        final(table)@.len() == old(table)@.len(),
        targets_valid(final(table)@, state_count as int),
        assigned(
            r,
            final(table)@,
            assign_mappings(
                old(table)@,
                key_pairs(*state_bimap),
                symbol_pairs(*alphabet_bimap),
                full_alphabet_set@,
                alphabet_size as int,
                src_idx,
                mappings@,
            ),
        ),
{
    let ghost keys = key_pairs(*state_bimap);
    let ghost symbols = symbol_pairs(*alphabet_bimap);
    let ghost goal = assign_mappings(
        table@,
        keys,
        symbols,
        full_alphabet_set@,
        alphabet_size as int,
        src_idx,
        mappings@,
    );
    let mut j: usize = 0;
    proof {
        assert(mappings@.skip(0) =~= mappings@);
    }
    while j < mappings.len()
        invariant
            j <= mappings@.len(),
            full_alphabet_set.wf(),
            keys == key_pairs(*state_bimap),
            symbols == symbol_pairs(*alphabet_bimap),
            indexes(keys),
            state_count == keys.len(),
            indexes(symbols),
            alphabet_size == symbols.len(),
            table@.len() == state_count * alphabet_size,
            table@.len() == old(table)@.len(),
            goal == assign_mappings(
                old(table)@,
                keys,
                symbols,
                full_alphabet_set@,
                alphabet_size as int,
                src_idx,
                mappings@,
            ),
            src_idx < state_count,
            targets_valid(table@, state_count as int),
            assign_mappings(
                table@,
                keys,
                symbols,
                full_alphabet_set@,
                alphabet_size as int,
                src_idx,
                mappings@.skip(j as int),
            ) == goal,
        decreases mappings@.len() - j,
    {
        let mapping = &mappings[j];
        proof {
            assert(mappings@.skip(j as int)[0] == mappings@[j as int]);
            assert(mappings@.skip(j as int).drop_first() =~= mappings@.skip(j as int + 1));
            lemma_indexing_items(keys, items_of(keys));
        }
        let dest_idx = match get_state_idx(state_bimap, mapping.to.as_str()) {
            Ok(d) => d,
            Err(e) => {
                return Err(e);
            },
        };
        match mapping.on.to_transition_trigger(full_alphabet_set) {
            Err(e) => {
                return Err(FsmError::SpecSyntax(e));
            },
            Ok(TransitionTrigger::Epsilon) => {
                return Err(FsmError::EpsilonInDfa { state: src_idx });
            },
            Ok(TransitionTrigger::Chars(on_chars)) => {
                proof {
                    lemma_sorted_chars(&on_chars);
                }
                match assign_on_chars(
                    table,
                    alphabet_bimap,
                    state_count,
                    alphabet_size,
                    src_idx,
                    dest_idx,
                    &on_chars,
                ) {
                    Ok(_) => {},
                    Err(e) => {
                        return Err(e);
                    },
                }
            },
        }
        j = j + 1;
    }
    Ok(())
}

/// Builds the dense table of a deterministic description from its rules,
/// and reports a rule that cannot be applied, two rules that disagree and a
/// cell that no rule fills.
#[verifier::rlimit(60)]
pub fn build_dfa_transitions(
    state_bimap: &BiMap<String, usize>,
    transitions: &Vec<YamlTransitions>,
    full_alphabet_set: &CharSet,
    alphabet_bimap: &BiMap<char, usize>,
) -> (r: Result<Vec<usize>, FsmError>)
    requires
        full_alphabet_set.wf(),
        indexes(key_pairs(*state_bimap)),
        indexes(symbol_pairs(*alphabet_bimap)),
    ensures
        match r {
            Ok(table) => {
                &&& dfa_table(
                    key_pairs(*state_bimap),
                    symbol_pairs(*alphabet_bimap),
                    full_alphabet_set@,
                    transitions@,
                ) == Ok::<Seq<usize>, FsmError>(table@)
                &&& table@.len() == key_pairs(*state_bimap).len() * symbol_pairs(
                    *alphabet_bimap,
                ).len()
                &&& forall|k: int|
                    0 <= k < table@.len() ==> #[trigger] table@[k] < key_pairs(*state_bimap).len()
            },
            Err(e) => dfa_table(
                key_pairs(*state_bimap),
                symbol_pairs(*alphabet_bimap),
                full_alphabet_set@,
                transitions@,
            ) == Err::<Seq<usize>, FsmError>(e),
        },
{
    let ghost keys = key_pairs(*state_bimap);
    let ghost symbols = symbol_pairs(*alphabet_bimap);
    let state_count = keys_len(state_bimap);
    let alphabet_size = symbols_len(alphabet_bimap);
    let size = match state_count.checked_mul(alphabet_size) {
        Some(size) => size,
        None => {
            return Err(FsmError::TooManyStates);
        },
    };
    let mut table: Vec<Option<usize>> = Vec::new();
    let mut k: usize = 0;
    while k < size
        invariant
            k <= size,
            table@.len() == k,
            forall|x: int| 0 <= x < k ==> (#[trigger] table@[x]) is None,
        decreases size - k,
    {
        table.push(None);
        k = k + 1;
    }
    let ghost empty = Seq::new(size as nat, |x: int| None::<usize>);
    proof {
        assert(table@ =~= empty);
        assert(transitions@.skip(0) =~= transitions@);
    }
    let ghost goal = assign_sources(
        empty,
        keys,
        symbols,
        full_alphabet_set@,
        alphabet_size as int,
        transitions@,
    );
    let mut i: usize = 0;
    while i < transitions.len()
        invariant
            i <= transitions@.len(),
            full_alphabet_set.wf(),
            keys == key_pairs(*state_bimap),
            symbols == symbol_pairs(*alphabet_bimap),
            indexes(keys),
            state_count == keys.len(),
            indexes(symbols),
            alphabet_size == symbols.len(),
            table@.len() == state_count * alphabet_size,
            size == state_count * alphabet_size,
            empty == Seq::new(size as nat, |x: int| None::<usize>),
            goal == assign_sources(
                empty,
                keys,
                symbols,
                full_alphabet_set@,
                alphabet_size as int,
                transitions@,
            ),
            targets_valid(table@, state_count as int),
            assign_sources(
                table@,
                keys,
                symbols,
                full_alphabet_set@,
                alphabet_size as int,
                transitions@.skip(i as int),
            ) == goal,
        decreases transitions@.len() - i,
    {
        proof {
            assert(transitions@.skip(i as int)[0] == transitions@[i as int]);
            assert(transitions@.skip(i as int).drop_first() =~= transitions@.skip(i as int + 1));
            lemma_indexing_items(keys, items_of(keys));
        }
        let src_idx = match get_state_idx(state_bimap, transitions[i].0.as_str()) {
            Ok(s) => s,
            Err(e) => {
                return Err(e);
            },
        };
        match assign_rules(
            &mut table,
            state_bimap,
            alphabet_bimap,
            full_alphabet_set,
            state_count,
            alphabet_size,
            src_idx,
            &transitions[i].1,
        ) {
            Ok(_) => {},
            Err(e) => {
                return Err(e);
            },
        }
        i = i + 1;
    }
    let mut final_table: Vec<usize> = Vec::new();
    let mut t: usize = 0;
    while t < table.len()
        invariant
            t <= table@.len(),
            symbols == symbol_pairs(*alphabet_bimap),
            indexes(symbols),
            alphabet_size == symbols.len(),
            table@.len() == state_count * alphabet_size,
            size == state_count * alphabet_size,
            state_count == key_pairs(*state_bimap).len(),
            empty == Seq::new(size as nat, |x: int| None::<usize>),
            assign_sources(
                empty,
                key_pairs(*state_bimap),
                symbols,
                full_alphabet_set@,
                alphabet_size as int,
                transitions@,
            ) == Ok::<Seq<Option<usize>>, FsmError>(table@),
            targets_valid(table@, state_count as int),
            first_hole(table@, 0) == first_hole(table@, t as int),
            final_table@.len() == t,
            forall|x: int| 0 <= x < t ==> (#[trigger] table@[x]) is Some && final_table@[x]
                == table@[x]->0,
        decreases table@.len() - t,
    {
        match table[t] {
            Some(dest) => {
                final_table.push(dest);
            },
            None => {
                proof {
                    if alphabet_size == 0 {
                        assert(state_count * alphabet_size == 0) by (nonlinear_arith)
                            requires
                                alphabet_size == 0,
                        ;
                    }
                    vstd::arithmetic::div_mod::lemma_mod_bound(t as int, alphabet_size as int);
                    lemma_indexing_items(symbols, items_of(symbols));
                }
                let src_idx = t / alphabet_size;
                let alpha_idx = t % alphabet_size;
                let symbol = match symbols_get_by_right(alphabet_bimap, alpha_idx) {
                    Some(c) => c,
                    None => '?',
                };
                proof {
                    let c = items_of(symbols)[alpha_idx as int];
                    assert(symbols.dom().contains(c));
                    assert(symbols[c] == alpha_idx);
                }
                return Err(FsmError::IncompleteDfa { state: src_idx, symbol });
            },
        }
        t = t + 1;
    }
    proof {
        assert(final_table@ =~= targets(table@));
        assert forall|x: int| 0 <= x < final_table@.len() implies #[trigger] final_table@[x]
            < keys.len() by {
            assert(table@[x] is Some);
        }
    }
    Ok(final_table)
}


/// The list `edges` after a transition from `src` to `dest` on each of
/// `chars` in turn is added, unless it is there.
pub open spec fn add_edges(edges: Seq<Edge>, src: usize, dest: usize, chars: Seq<char>) -> Seq<Edge>
    decreases chars.len(),
{
    if chars.len() == 0 {
        edges
    } else {
        add_edges(
            add_edge(edges, (src, Some(chars[0]), dest)),
            src,
            dest,
            chars.drop_first(),
        )
    }
}

/// The list `edges` after the transitions of a rule from `src` to `dest`
/// are added: one epsilon move, or one transition on each character of the
/// trigger in ascending order.
pub open spec fn add_rule(edges: Seq<Edge>, src: usize, dest: usize, trigger: Trigger) -> Seq<Edge> {
    match trigger {
        Trigger::Epsilon => add_edge(edges, (src, None::<char>, dest)),
        Trigger::Chars(chars) => add_edges(edges, src, dest, sorted_chars(chars)),
    }
}

/// The transitions after the rules `mappings` of state `src` are added to
/// `edges` in turn: an unknown target and a malformed trigger are errors.
pub open spec fn edges_of_mappings(
    edges: Seq<Edge>,
    keys: Map<Seq<char>, usize>,
    full: Set<char>,
    src: usize,
    mappings: Seq<YamlTransitionMapping>,
) -> Result<Seq<Edge>, FsmError>
    decreases mappings.len(),
{
    if mappings.len() == 0 {
        Ok(edges)
    } else {
        match lookup(keys, mappings[0].to@) {
            None => Err(FsmError::UnknownState),
            Some(dest) => match trigger_of(mappings[0].on, full) {
                Err(e) => Err(FsmError::SpecSyntax(e)),
                Ok(trigger) => edges_of_mappings(
                    add_rule(edges, src, dest, trigger),
                    keys,
                    full,
                    src,
                    mappings.drop_first(),
                ),
            },
        }
    }
}

/// The transitions after the rules of all source states are added to
/// `edges` in turn: an unknown source state is an error.
pub open spec fn edges_of_sources(
    edges: Seq<Edge>,
    keys: Map<Seq<char>, usize>,
    full: Set<char>,
    transitions: Seq<YamlTransitions>,
) -> Result<Seq<Edge>, FsmError>
    decreases transitions.len(),
{
    if transitions.len() == 0 {
        Ok(edges)
    } else {
        match lookup(keys, transitions[0].0@) {
            None => Err(FsmError::UnknownState),
            Some(src) => match edges_of_mappings(edges, keys, full, src, transitions[0].1@) {
                Err(e) => Err(e),
                Ok(next) => edges_of_sources(next, keys, full, transitions.drop_first()),
            },
        }
    }
}

/// The indices of the states that are declared accepting.
pub open spec fn accepting(state_infos: Seq<StateInfo>) -> Set<usize> {
    Set::new(|i: usize| i < state_infos.len() && state_infos[i as int].accept)
}

/// Whether every transition of `edges` runs between states below `bound`.
pub open spec fn edges_within(edges: Set<Edge>, bound: int) -> bool {
    forall|e: Edge| #[trigger] edges.contains(e) ==> e.0 < bound && e.2 < bound
}

/// Adds to the builder the transitions of the rules `mappings` of state
/// `src_idx`.
#[verifier::rlimit(60)]
fn add_rules(
    builder: &mut NfaBuilder,
    state_bimap: &BiMap<String, usize>,
    full_alphabet_set: &CharSet,
    src_idx: usize,
    mappings: &Vec<YamlTransitionMapping>,
) -> (r: Result<(), FsmError>)
    requires
        old(builder).wf(),
        full_alphabet_set.wf(),
        indexes(key_pairs(*state_bimap)),
        src_idx < key_pairs(*state_bimap).len(),
        edges_within(old(builder).edges(), key_pairs(*state_bimap).len() as int),
    ensures
        final(builder).wf(),
        final(builder).state_counter == old(builder).state_counter,
        edges_within(final(builder).edges(), key_pairs(*state_bimap).len() as int),
        match r {
            Ok(_) => edges_of_mappings(
                old(builder).transitions@,
                key_pairs(*state_bimap),
                full_alphabet_set@,
                src_idx,
                mappings@,
            ) == Ok::<Seq<Edge>, FsmError>(final(builder).transitions@),
            Err(e) => edges_of_mappings(
                old(builder).transitions@,
                key_pairs(*state_bimap),
                full_alphabet_set@,
                src_idx,
                mappings@,
            ) == Err::<Seq<Edge>, FsmError>(e),
        },
{
    let ghost keys = key_pairs(*state_bimap);
    let ghost goal = edges_of_mappings(
        builder.transitions@,
        keys,
        full_alphabet_set@,
        src_idx,
        mappings@,
    );
    let mut j: usize = 0;
    proof {
        assert(mappings@.skip(0) =~= mappings@);
    }
    while j < mappings.len()
        invariant
            j <= mappings@.len(),
            builder.wf(),
            builder.state_counter == old(builder).state_counter,
            full_alphabet_set.wf(),
            keys == key_pairs(*state_bimap),
            indexes(keys),
            src_idx < keys.len(),
            edges_within(builder.edges(), keys.len() as int),
            goal == edges_of_mappings(
                old(builder).transitions@,
                keys,
                full_alphabet_set@,
                src_idx,
                mappings@,
            ),
            edges_of_mappings(
                builder.transitions@,
                keys,
                full_alphabet_set@,
                src_idx,
                mappings@.skip(j as int),
            ) == goal,
        decreases mappings@.len() - j,
    {
        let mapping = &mappings[j];
        proof {
            assert(mappings@.skip(j as int)[0] == mappings@[j as int]);
            assert(mappings@.skip(j as int).drop_first() =~= mappings@.skip(j as int + 1));
            lemma_indexing_items(keys, items_of(keys));
        }
        let dest_idx = match get_state_idx(state_bimap, mapping.to.as_str()) {
            Ok(d) => d,
            Err(e) => {
                return Err(e);
            },
        };
        let ghost before = builder.transitions@;
        match mapping.on.to_transition_trigger(full_alphabet_set) {
            Err(e) => {
                return Err(FsmError::SpecSyntax(e));
            },
            Ok(TransitionTrigger::Epsilon) => {
                builder.add_transition(src_idx, dest_idx, None);
            },
            Ok(TransitionTrigger::Chars(chars)) => {
                let n = chars.len();
                let mut i: usize = 0;
                let ghost ordered = chars.seq();
                proof {
                    lemma_sorted_chars(&chars);
                    assert(ordered.skip(0) =~= ordered);
                }
                while i < n
                    invariant
                        i <= n,
                        ordered == chars.seq(),
                        n == ordered.len(),
                        chars.wf(),
                        builder.wf(),
                        builder.state_counter == old(builder).state_counter,
                        src_idx < keys.len(),
                        dest_idx < keys.len(),
                        edges_within(builder.edges(), keys.len() as int),
                        add_edges(builder.transitions@, src_idx, dest_idx, ordered.skip(i as int))
                            == add_edges(before, src_idx, dest_idx, ordered),
                    decreases n - i,
                {
                    let c = chars.get(i);
                    proof {
                        assert(ordered.skip(i as int)[0] == c);
                        assert(ordered.skip(i as int).drop_first() =~= ordered.skip(i as int + 1));
                    }
                    builder.add_transition(src_idx, dest_idx, Some(c));
                    i = i + 1;
                }
            },
        }
        j = j + 1;
    }
    Ok(())
}

impl Nfa {
    /// Builds a nondeterministic automaton from the parts of a description:
    /// the state keys with their indices, the index of the start state, the
    /// properties of the states, and the rules by source state.
    #[verifier::rlimit(60)]
    pub fn from_yaml(
        state_bimap: &BiMap<String, usize>,
        start_state_idx: usize,
        state_infos: &Vec<StateInfo>,
        yaml_transitions: &Vec<YamlTransitions>,
        full_alphabet_set: &CharSet,
    ) -> (r: Result<Nfa, FsmError>)
        requires
            full_alphabet_set.wf(),
            indexes(key_pairs(*state_bimap)),
            start_state_idx < key_pairs(*state_bimap).len(),
        ensures
            match r {
                Ok(nfa) => {
                    &&& edges_of_sources(
                        Seq::<Edge>::empty(),
                        key_pairs(*state_bimap),
                        full_alphabet_set@,
                        yaml_transitions@,
                    ) == Ok::<Seq<Edge>, FsmError>(nfa.transitions@)
                    &&& nfa.wf()
                    &&& nfa.start_state == start_state_idx
                    &&& nfa.nfa_accept_states@ == accepting(state_infos@)
                    &&& key_pairs(nfa.nfa_state_keys) == key_pairs(*state_bimap)
                },
                Err(e) => edges_of_sources(
                    Seq::<Edge>::empty(),
                    key_pairs(*state_bimap),
                    full_alphabet_set@,
                    yaml_transitions@,
                ) == Err::<Seq<Edge>, FsmError>(e),
            },
    {
        let ghost keys = key_pairs(*state_bimap);
        let mut nfa_accept_states = StateSet::new();
        let mut i: usize = 0;
        proof {
            assert(nfa_accept_states@ =~= accepting(state_infos@.take(0)));
        }
        while i < state_infos.len()
            invariant
                i <= state_infos@.len(),
                nfa_accept_states.wf(),
                nfa_accept_states@ == accepting(state_infos@.take(i as int)),
            decreases state_infos@.len() - i,
        {
            let ghost before = nfa_accept_states@;
            if state_infos[i].accept {
                nfa_accept_states.insert(i);
            }
            proof {
                let seen = state_infos@.take(i as int);
                let more = state_infos@.take(i as int + 1);
                assert forall|q: usize| nfa_accept_states@.contains(q) <==> accepting(
                    more,
                ).contains(q) by {
                    if q < i {
                        assert(seen[q as int] == more[q as int]);
                    }
                    if before.contains(q) {
                        assert(accepting(seen).contains(q));
                    }
                }
                assert(nfa_accept_states@ =~= accepting(more));
            }
            i = i + 1;
        }
        proof {
            assert(state_infos@.take(i as int) =~= state_infos@);
        }
        let mut builder = NfaBuilder::new();
        let ghost goal = edges_of_sources(
            Seq::<Edge>::empty(),
            keys,
            full_alphabet_set@,
            yaml_transitions@,
        );
        let mut k: usize = 0;
        proof {
            assert(yaml_transitions@.skip(0) =~= yaml_transitions@);
        }
        while k < yaml_transitions.len()
            invariant
                k <= yaml_transitions@.len(),
                builder.wf(),
                full_alphabet_set.wf(),
                keys == key_pairs(*state_bimap),
                indexes(keys),
                edges_within(builder.edges(), keys.len() as int),
                goal == edges_of_sources(
                    Seq::<Edge>::empty(),
                    keys,
                    full_alphabet_set@,
                    yaml_transitions@,
                ),
                edges_of_sources(
                    builder.transitions@,
                    keys,
                    full_alphabet_set@,
                    yaml_transitions@.skip(k as int),
                ) == goal,
            decreases yaml_transitions@.len() - k,
        {
            proof {
                assert(yaml_transitions@.skip(k as int)[0] == yaml_transitions@[k as int]);
                assert(yaml_transitions@.skip(k as int).drop_first() =~= yaml_transitions@.skip(
                    k as int + 1,
                ));
                lemma_indexing_items(keys, items_of(keys));
            }
            let src_idx = match get_state_idx(state_bimap, yaml_transitions[k].0.as_str()) {
                Ok(s) => s,
                Err(e) => {
                    return Err(e);
                },
            };
            match add_rules(
                &mut builder,
                state_bimap,
                full_alphabet_set,
                src_idx,
                &yaml_transitions[k].1,
            ) {
                Ok(_) => {},
                Err(e) => {
                    return Err(e);
                },
            }
            k = k + 1;
        }
        let nfa = Nfa {
            transitions: builder.transitions,
            start_state: start_state_idx,
            nfa_accept_states,
            nfa_state_keys: keys_clone(state_bimap),
        };
        proof {
            lemma_indexing_items(keys, items_of(keys));
            assert forall|x: int| 0 <= x < nfa.transitions@.len() implies (#[trigger] nfa.transitions@[x]).0
                < nfa.num_states() && nfa.transitions@[x].2 < nfa.num_states() by {
                assert(nfa.edges().contains(nfa.transitions@[x]));
            }
        }
        Ok(nfa)
    }
}

/// The text of an optional string.
pub open spec fn option_text(o: Option<String>) -> Option<Seq<char>> {
    match o {
        Some(s) => Some(s@),
        None => None,
    }
}

/// Whether `infos` holds, state by state, what `states` declares.
pub open spec fn infos_match(states: Seq<(String, YamlStateProps)>, infos: Seq<StateInfo>) -> bool {
    &&& infos.len() == states.len()
    &&& forall|i: int|
        0 <= i < states.len() ==> (#[trigger] infos[i]).accept == states[i].1.accept
            && option_text(infos[i].label) == option_text(states[i].1.label)
}

/// The error of a description, if it has one: a malformed alphabet, an
/// unknown start state, or the first error among its rules; for a
/// description that claims to be deterministic these include ambiguity and
/// incompleteness.
pub open spec fn load_error(document: YamlDFA) -> Option<FsmError> {
    match specifiers_chars(document.alphabet@) {
        Err(e) => Some(FsmError::SpecSyntax(e)),
        Ok(full) => {
            let keys = numbering(state_texts(document.states@));
            let symbols = numbering(sorted_chars(full));
            if lookup(keys, document.start_state@) is None {
                Some(FsmError::UnknownState)
            } else if document.dfa {
                match dfa_table(keys, symbols, full, document.transitions@) {
                    Err(e) => Some(e),
                    Ok(_) => None,
                }
            } else {
                match edges_of_sources(Seq::<Edge>::empty(), keys, full, document.transitions@) {
                    Err(e) => Some(e),
                    Ok(_) => None,
                }
            }
        },
    }
}

/// Whether `d` is the deterministic automaton that `document` describes
/// directly.
pub open spec fn loaded_dfa(document: YamlDFA, d: &Dfa) -> bool {
    let full = specifiers_chars(document.alphabet@)->Ok_0;
    let keys = numbering(state_texts(document.states@));
    let symbols = numbering(sorted_chars(full));
    &&& d.wf()
    &&& d.name@ == document.name@
    &&& option_text(d.description) == option_text(document.description)
    &&& d.symbols() == sorted_chars(full)
    &&& is_indexing(key_pairs(d.state_keys), state_texts(document.states@))
    &&& d.keyed()
    &&& Some(d.start_state_idx) == lookup(keys, document.start_state@)
    &&& Ok::<Seq<usize>, FsmError>(d.transition_table@) == dfa_table(
        keys,
        symbols,
        full,
        document.transitions@,
    )
    &&& infos_match(document.states@, d.state_properties@)
}

/// Whether `nfa` is the nondeterministic automaton that `document`
/// describes.
pub open spec fn loaded_nfa(document: YamlDFA, nfa: &Nfa) -> bool {
    let full = specifiers_chars(document.alphabet@)->Ok_0;
    let keys = numbering(state_texts(document.states@));
    &&& nfa.wf()
    &&& nfa.keys() == state_texts(document.states@)
    &&& Some(nfa.start_state) == lookup(keys, document.start_state@)
    &&& Ok::<Seq<Edge>, FsmError>(nfa.transitions@) == edges_of_sources(
        Seq::<Edge>::empty(),
        keys,
        full,
        document.transitions@,
    )
    &&& nfa.nfa_accept_states@ == Set::new(
        |i: usize| i < document.states@.len() && document.states@[i as int].1.accept,
    )
}

/// Whether `dfa` is the subset construction of `nfa` over the alphabet of
/// `document`, under its name and description.
pub open spec fn determinized(document: YamlDFA, nfa: &Nfa, dfa: &Dfa) -> bool {
    let full = specifiers_chars(document.alphabet@)->Ok_0;
    &&& dfa.wf()
    &&& dfa.name@ == document.name@
    &&& option_text(dfa.description) == option_text(document.description)
    &&& dfa.symbols() == sorted_chars(full)
    &&& exists|subsets: Seq<Set<usize>>| #[trigger]
        determinizes(
            nfa.edges(),
            nfa.start_state,
            nfa.nfa_accept_states@,
            dfa.symbols(),
            subsets,
            dfa,
        ) && labelled(nfa.keys(), subsets, dfa)
    &&& forall|w: Seq<char>| #[trigger]
        dfa.accepts(w) <==> over(dfa.symbols(), w) && nfa.accepts(w)
    &&& crate::determinize::comma_free_keys(nfa.keys()) ==> dfa.keyed()
}

/// Whether `r` is the outcome of loading `document`: its error where it has
/// one, else the automaton that it describes.
pub open spec fn loads(document: YamlDFA, r: Result<Fsm, FsmError>) -> bool {
    match r {
        Ok(Fsm::Dfa(dfa)) => load_error(document) is None && document.dfa && loaded_dfa(
            document,
            &dfa,
        ),
        Ok(Fsm::Nfa { nfa, dfa }) => load_error(document) is None && !document.dfa && loaded_nfa(
            document,
            &nfa,
        ) && determinized(document, &nfa, &dfa),
        Err(e) => load_error(document) == Some(e),
    }
}

/// A copy of an optional string.
fn copy_of(o: &Option<String>) -> (copy: Option<String>)
    ensures
        option_text(copy) == option_text(*o),
{
    match o {
        Some(s) => Some(s.clone()),
        None => None,
    }
}

/// Builds the automaton that a parsed description describes.
///
/// A description that claims to be deterministic is examined for ambiguity
/// and completeness and becomes a deterministic automaton as it stands. Any
/// other becomes a nondeterministic automaton and its subset construction.
#[verifier::rlimit(60)]
pub fn from_yaml(document: &YamlDFA) -> (r: Result<Fsm, FsmError>)
    requires
        document.wf(),
    ensures
        loads(*document, r),
{
    let alphabet_set = match read_alphabet(&document.alphabet) {
        Ok(chars) => chars,
        Err(e) => {
            return Err(FsmError::SpecSyntax(e));
        },
    };
    let alphabet_bimap = symbol_index(&alphabet_set);
    let ghost texts = state_texts(document.states@);
    let mut state_keys: Vec<String> = Vec::new();
    let mut state_infos: Vec<StateInfo> = Vec::new();
    let mut accept_states: Vec<bool> = Vec::new();
    let mut i: usize = 0;
    proof {
        assert(key_views(state_keys@) =~= texts.take(0));
    }
    while i < document.states.len()
        invariant
            i <= document.states@.len(),
            texts == state_texts(document.states@),
            key_views(state_keys@) == texts.take(i as int),
            state_infos@.len() == i,
            accept_states@.len() == i,
            forall|k: int|
                0 <= k < i ==> (#[trigger] state_infos@[k]).accept == document.states@[k].1.accept
                    && option_text(state_infos@[k].label) == option_text(
                    document.states@[k].1.label,
                ) && accept_states@[k] == document.states@[k].1.accept,
        decreases document.states@.len() - i,
    {
        let ghost before = key_views(state_keys@);
        let ghost infos_before = state_infos@;
        let ghost flags_before = accept_states@;
        let key = document.states[i].0.clone();
        let label = copy_of(&document.states[i].1.label);
        let accept = document.states[i].1.accept;
        state_keys.push(key);
        state_infos.push(StateInfo { label, accept });
        accept_states.push(accept);
        proof {
            assert(key_views(state_keys@) =~= before.push(key@));
            assert(texts.take(i as int + 1) =~= texts.take(i as int).push(texts[i as int]));
            assert forall|k: int| 0 <= k < i + 1 implies (#[trigger] state_infos@[k]).accept
                == document.states@[k].1.accept && option_text(state_infos@[k].label)
                == option_text(document.states@[k].1.label) && accept_states@[k]
                == document.states@[k].1.accept by {
                if k < i {
                    assert(state_infos@[k] == infos_before[k]);
                    assert(accept_states@[k] == flags_before[k]);
                }
            }
        }
        i = i + 1;
    }
    proof {
        assert(texts.take(i as int) =~= texts);
        lemma_ascending_distinct(texts);
    }
    let state_bimap = key_index(&state_keys);
    proof {
        alphabet_set.lemma_seq();
        lemma_sorted_chars(&alphabet_set);
        lemma_indexing_items(key_pairs(state_bimap), texts);
        lemma_indexing_is_numbering(key_pairs(state_bimap), texts);
        lemma_indexing_items(symbol_pairs(alphabet_bimap), alphabet_set.seq());
        lemma_indexing_is_numbering(symbol_pairs(alphabet_bimap), alphabet_set.seq());
    }
    let start_state_index = match get_state_idx(&state_bimap, document.start_state.as_str()) {
        Ok(s) => s,
        Err(e) => {
            return Err(e);
        },
    };
    if document.dfa {
        let transition_table = match build_dfa_transitions(
            &state_bimap,
            &document.transitions,
            &alphabet_set,
            &alphabet_bimap,
        ) {
            Ok(table) => table,
            Err(e) => {
                return Err(e);
            },
        };
        let dfa = Dfa {
            name: document.name.clone(),
            description: copy_of(&document.description),
            alphabet: alphabet_bimap,
            state_keys: state_bimap,
            start_state_idx: start_state_index,
            accept_states,
            transition_table,
            state_properties: state_infos,
        };
        proof {
            assert(dfa.symbols() == alphabet_set.seq());
            assert(dfa.num_states() == texts.len());
            assert(dfa.wf());
        }
        Ok(Fsm::Dfa(dfa))
    } else {
        let nfa = match Nfa::from_yaml(
            &state_bimap,
            start_state_index,
            &state_infos,
            &document.transitions,
            &alphabet_set,
        ) {
            Ok(nfa) => nfa,
            Err(e) => {
                return Err(e);
            },
        };
        proof {
            lemma_indexing_items(key_pairs(nfa.nfa_state_keys), texts);
            assert(nfa.nfa_accept_states@ =~= Set::new(
                |q: usize| q < document.states@.len() && document.states@[q as int].1.accept,
            ));
        }
        let description = copy_of(&document.description);
        let ghost wanted = option_text(description);
        match nfa.to_dfa(document.name.as_str(), description, &alphabet_set) {
            Ok(dfa) => {
                proof {
                    let subsets = choose|subsets: Seq<Set<usize>>| #[trigger]
                        determinizes(
                            nfa.edges(),
                            nfa.start_state,
                            nfa.nfa_accept_states@,
                            alphabet_set.seq(),
                            subsets,
                            &dfa,
                        ) && labelled(nfa.keys(), subsets, &dfa);
                    assert(dfa.symbols() == alphabet_set.seq());
                }
                Ok(Fsm::Nfa { nfa, dfa })
            },
            Err(e) => Err(e),
        }
    }
}


/// Whether `after` holds every target that `before` holds, in a table of as
/// many cells.
pub open spec fn keeps(before: Seq<Option<usize>>, after: Seq<Option<usize>>) -> bool {
    &&& after.len() == before.len()
    &&& forall|k: int| 0 <= k < before.len() && (#[trigger] before[k]) is Some ==> after[k] == before[k]
}

/// Where sending `src` to `dest` on `chars` succeeds, the cells filled before
/// are kept, and the cell of `src` and each of the characters leads to `dest`.
pub proof fn lemma_assign_chars(
    table: Seq<Option<usize>>,
    symbols: Map<char, usize>,
    height: int,
    src: usize,
    dest: usize,
    chars: Seq<char>,
)
    requires
        indexes(symbols),
        table.len() == height * symbols.len(),
        src < height,
        assign_chars(table, symbols, symbols.len() as int, src, dest, chars) is Ok,
    ensures
        ({
            let after = assign_chars(table, symbols, symbols.len() as int, src, dest, chars)->Ok_0;
            &&& keeps(table, after)
            &&& forall|x: int|
                0 <= x < chars.len() ==> symbols.contains_key(#[trigger] chars[x]) && after[src
                    * symbols.len() + symbols[chars[x]]] == Some(dest)
        }),
    decreases chars.len(),
{
    let width = symbols.len() as int;
    if chars.len() > 0 {
        let c = chars[0];
        lemma_indexing_items(symbols, items_of(symbols));
        let k = src * width + symbols[c];
        lemma_cell_in_table(src as int, symbols[c] as int, height, width);
        let next = match table[k] {
            Some(_) => table,
            None => table.update(k, Some(dest)),
        };
        lemma_assign_chars(next, symbols, height, src, dest, chars.drop_first());
        let after = assign_chars(table, symbols, width, src, dest, chars)->Ok_0;
        assert(after == assign_chars(next, symbols, width, src, dest, chars.drop_first())->Ok_0);
        assert(next[k] == Some(dest));
        assert(keeps(table, next));
        assert(keeps(next, after));
        assert forall|y: int| 0 <= y < table.len() && (#[trigger] table[y]) is Some implies after[y]
            == table[y] by {
            assert(next[y] == table[y]);
            assert(next[y] is Some);
        }
        assert forall|x: int| 0 <= x < chars.len() implies symbols.contains_key(
            #[trigger] chars[x],
        ) && after[src * symbols.len() + symbols[chars[x]]] == Some(dest) by {
            if x > 0 {
                assert(chars.drop_first()[x - 1] == chars[x]);
            } else {
                assert(next[k] is Some);
                assert(after[k] == next[k]);
            }
        }
    }
}

/// Where applying the rules of `src` succeeds, the cells filled before are
/// kept, and each rule is in the table: its target is a state, and the cell
/// of `src` and each character of its trigger leads to it.
pub proof fn lemma_assign_mappings(
    table: Seq<Option<usize>>,
    keys: Map<Seq<char>, usize>,
    symbols: Map<char, usize>,
    full: Set<char>,
    height: int,
    src: usize,
    mappings: Seq<YamlTransitionMapping>,
)
    requires
        indexes(symbols),
        table.len() == height * symbols.len(),
        src < height,
        assign_mappings(table, keys, symbols, full, symbols.len() as int, src, mappings) is Ok,
    ensures
        ({
            let after = assign_mappings(
                table,
                keys,
                symbols,
                full,
                symbols.len() as int,
                src,
                mappings,
            )->Ok_0;
            &&& keeps(table, after)
            &&& forall|j: int, c: char|
                0 <= j < mappings.len() && #[trigger] fires_on(mappings[j], full, c) ==> {
                    &&& lookup(keys, mappings[j].to@) is Some
                    &&& symbols.contains_key(c)
                    &&& after[src * symbols.len() + symbols[c]] == lookup(keys, mappings[j].to@)
                }
        }),
    decreases mappings.len(),
{
    let width = symbols.len() as int;
    if mappings.len() > 0 {
        let first = mappings[0];
        let dest = lookup(keys, first.to@)->0;
        let chars = trigger_of(first.on, full)->Ok_0->Chars_0;
        let ordered = sorted_chars(chars);
        lemma_assign_chars(table, symbols, height, src, dest, ordered);
        let next = assign_chars(table, symbols, width, src, dest, ordered)->Ok_0;
        lemma_assign_mappings(next, keys, symbols, full, height, src, mappings.drop_first());
        let after = assign_mappings(table, keys, symbols, full, width, src, mappings)->Ok_0;
        lemma_indexing_items(symbols, items_of(symbols));
        assert forall|j: int, c: char|
            0 <= j < mappings.len() && #[trigger] fires_on(mappings[j], full, c) implies {
            &&& lookup(keys, mappings[j].to@) is Some
            &&& symbols.contains_key(c)
            &&& after[src * symbols.len() + symbols[c]] == lookup(keys, mappings[j].to@)
        } by {
            if j == 0 {
                let x = choose|x: int| 0 <= x < ordered.len() && ordered[x] == c;
                assert(symbols.contains_key(ordered[x]));
                lemma_cell_in_table(src as int, symbols[c] as int, height, width);
                assert(next[src * symbols.len() + symbols[c]] == Some(dest));
            } else {
                assert(mappings.drop_first()[j - 1] == mappings[j]);
                assert(fires_on(mappings.drop_first()[j - 1], full, c));
            }
        }
    }
}

/// Whether the rule `mapping` fires on `c`: its trigger denotes characters,
/// and `c` is one of them.
pub open spec fn fires_on(mapping: YamlTransitionMapping, full: Set<char>, c: char) -> bool {
    trigger_of(mapping.on, full) matches Ok(Trigger::Chars(chars)) && sorted_chars(
        chars,
    ).contains(c)
}

/// Where applying all rules succeeds, the cells filled before are kept, and
/// each rule is in the table.
pub proof fn lemma_assign_sources(
    table: Seq<Option<usize>>,
    keys: Map<Seq<char>, usize>,
    symbols: Map<char, usize>,
    full: Set<char>,
    transitions: Seq<YamlTransitions>,
)
    requires
        indexes(keys),
        indexes(symbols),
        table.len() == keys.len() * symbols.len(),
        assign_sources(table, keys, symbols, full, symbols.len() as int, transitions) is Ok,
    ensures
        ({
            let after = assign_sources(
                table,
                keys,
                symbols,
                full,
                symbols.len() as int,
                transitions,
            )->Ok_0;
            &&& keeps(table, after)
            &&& forall|i: int, j: int, c: char|
                0 <= i < transitions.len() && 0 <= j < transitions[i].1@.len() && #[trigger] fires_on(
                    transitions[i].1@[j],
                    full,
                    c,
                ) ==> {
                    &&& lookup(keys, transitions[i].0@) is Some
                    &&& lookup(keys, transitions[i].1@[j].to@) is Some
                    &&& symbols.contains_key(c)
                    &&& after[lookup(keys, transitions[i].0@)->0 * symbols.len() + symbols[c]]
                        == lookup(keys, transitions[i].1@[j].to@)
                }
        }),
    decreases transitions.len(),
{
    let width = symbols.len() as int;
    let height = keys.len() as int;
    if transitions.len() > 0 {
        let src = lookup(keys, transitions[0].0@)->0;
        lemma_indexing_items(keys, items_of(keys));
        lemma_indexing_items(symbols, items_of(symbols));
        lemma_assign_mappings(table, keys, symbols, full, height, src, transitions[0].1@);
        let next = assign_mappings(table, keys, symbols, full, width, src, transitions[0].1@)->Ok_0;
        lemma_assign_sources(next, keys, symbols, full, transitions.drop_first());
        let after = assign_sources(table, keys, symbols, full, width, transitions)->Ok_0;
        assert forall|i: int, j: int, c: char|
            0 <= i < transitions.len() && 0 <= j < transitions[i].1@.len() && #[trigger] fires_on(
                transitions[i].1@[j],
                full,
                c,
            ) implies {
            &&& lookup(keys, transitions[i].0@) is Some
            &&& lookup(keys, transitions[i].1@[j].to@) is Some
            &&& symbols.contains_key(c)
            &&& after[lookup(keys, transitions[i].0@)->0 * symbols.len() + symbols[c]] == lookup(
                keys,
                transitions[i].1@[j].to@,
            )
        } by {
            if i == 0 {
                assert(fires_on(transitions[0].1@[j], full, c));
                lemma_cell_in_table(src as int, symbols[c] as int, height, width);
            } else {
                assert(transitions.drop_first()[i - 1] == transitions[i]);
                assert(fires_on(transitions.drop_first()[i - 1].1@[j], full, c));
            }
        }
    }
}

/// The table of a deterministic description, where there is one, has a
/// cell for each state and character and honours every rule: the cell of
/// the source state and of each character of the trigger leads to the
/// target state. So rules that disagree yield no table, and neither do
/// rules that leave a cell empty.
pub proof fn lemma_rules_honoured(
    keys: Map<Seq<char>, usize>,
    symbols: Map<char, usize>,
    full: Set<char>,
    transitions: Seq<YamlTransitions>,
)
    requires
        indexes(keys),
        indexes(symbols),
        dfa_table(keys, symbols, full, transitions) is Ok,
    ensures
        ({
            let table = dfa_table(keys, symbols, full, transitions)->Ok_0;
            &&& table.len() == keys.len() * symbols.len()
            &&& forall|i: int, j: int, c: char|
                0 <= i < transitions.len() && 0 <= j < transitions[i].1@.len() && #[trigger] fires_on(
                    transitions[i].1@[j],
                    full,
                    c,
                ) ==> {
                    &&& lookup(keys, transitions[i].0@) is Some
                    &&& lookup(keys, transitions[i].1@[j].to@) is Some
                    &&& symbols.contains_key(c)
                    &&& Some(
                        table[lookup(keys, transitions[i].0@)->0 * symbols.len() + symbols[c]],
                    ) == lookup(keys, transitions[i].1@[j].to@)
                }
        }),
{
    let height = keys.len() as int;
    let width = symbols.len() as int;
    let empty = Seq::new((height * width) as nat, |k: int| None::<usize>);
    assert(height * width >= 0) by (nonlinear_arith)
        requires
            height >= 0,
            width >= 0,
    ;
    lemma_assign_sources(empty, keys, symbols, full, transitions);
    let filled = assign_sources(empty, keys, symbols, full, width, transitions)->Ok_0;
    let table = dfa_table(keys, symbols, full, transitions)->Ok_0;
    assert(table == targets(filled));
    lemma_indexing_items(keys, items_of(keys));
    lemma_indexing_items(symbols, items_of(symbols));
    assert forall|i: int, j: int, c: char|
        0 <= i < transitions.len() && 0 <= j < transitions[i].1@.len() && #[trigger] fires_on(
            transitions[i].1@[j],
            full,
            c,
        ) implies {
        &&& lookup(keys, transitions[i].0@) is Some
        &&& lookup(keys, transitions[i].1@[j].to@) is Some
        &&& symbols.contains_key(c)
        &&& Some(table[lookup(keys, transitions[i].0@)->0 * symbols.len() + symbols[c]])
            == lookup(keys, transitions[i].1@[j].to@)
    } by {
        let src = lookup(keys, transitions[i].0@)->0;
        lemma_cell_in_table(src as int, symbols[c] as int, height, width);
    }
}

/// Whether the automaton that was loaded accepts `w`.
pub open spec fn accepted_by(fsm: Fsm, w: Seq<char>) -> bool {
    match fsm {
        Fsm::Dfa(dfa) => dfa.accepts(w),
        Fsm::Nfa { nfa, dfa } => dfa.accepts(w),
    }
}

/// Loading is deterministic: two outcomes of loading the same description
/// are the same error, or automata that accept the same inputs.
pub proof fn lemma_load_deterministic(
    document: YamlDFA,
    first: Result<Fsm, FsmError>,
    second: Result<Fsm, FsmError>,
    w: Seq<char>,
)
    requires
        loads(document, first),
        loads(document, second),
    ensures
        first is Err <==> second is Err,
        first matches Err(e) ==> second == Err::<Fsm, FsmError>(e),
        first is Ok ==> accepted_by(first->Ok_0, w) == accepted_by(second->Ok_0, w),
{
    match (first, second) {
        (Ok(Fsm::Dfa(d1)), Ok(Fsm::Dfa(d2))) => {
            lemma_indexing_is_numbering(symbol_pairs(d1.alphabet), d1.symbols());
            lemma_indexing_is_numbering(symbol_pairs(d2.alphabet), d2.symbols());
            assert(d1.accept_states@ =~= d2.accept_states@) by {
                assert forall|q: int| 0 <= q < d1.accept_states@.len() implies d1.accept_states@[q]
                    == d2.accept_states@[q] by {
                    assert(d1.state_properties@[q].accept == document.states@[q].1.accept);
                    assert(d2.state_properties@[q].accept == document.states@[q].1.accept);
                }
            }
            d1.lemma_same_language(&d2, w);
        },
        (Ok(Fsm::Nfa { nfa: n1, dfa: d1 }), Ok(Fsm::Nfa { nfa: n2, dfa: d2 })) => {
            assert(n1.nfa_accept_states@ =~= n2.nfa_accept_states@);
        },
        _ => {},
    }
}


} // verus!
