//! The deterministic automaton: a dense, row-major transition table over an
//! indexed alphabet, and the loop that runs it on an input.

use crate::charset::strictly_increasing;
use crate::indexing::{
    indexes, items_of, key_pairs, keys_get_by_right, keys_len, keys_numbered,
    lemma_indexing_items, symbol_pairs, symbols_get_by_left, symbols_get_by_right, symbols_len,
    symbols_numbered,
};
use crate::text::chars_of;
use bimap::BiMap;
use vstd::prelude::*;

verus! {

/// What is shown of a state: an optional label and whether it accepts.
#[derive(Debug, Clone)]
pub struct StateInfo {
    pub label: Option<String>,
    pub accept: bool,
}

/// A complete deterministic automaton.
#[derive(Debug)]
pub struct Dfa {
    pub name: String,
    pub description: Option<String>,
    /// Each character of the alphabet with its column in the table.
    pub alphabet: BiMap<char, usize>,
    /// Each state key with the index of its state.
    pub state_keys: BiMap<String, usize>,
    pub start_state_idx: usize,
    /// For each state index, whether the state accepts.
    pub accept_states: Vec<bool>,
    /// The successor of state `q` on the character of column `a` stands at
    /// `q * |alphabet| + a`.
    pub transition_table: Vec<usize>,
    /// For each state index, what is shown of the state.
    pub state_properties: Vec<StateInfo>,
}

/// Characters of which each is less than the next strictly increase.
pub proof fn lemma_neighbours_increase(s: Seq<char>, i: int, j: int)
    requires
        0 <= i < j < s.len(),
        forall|k: int| 0 < k < s.len() ==> s[k - 1] < #[trigger] s[k],
    ensures
        s[i] < s[j],
    decreases j - i,
{
    assert(s[j - 1] < s[j]);
    if i < j - 1 {
        lemma_neighbours_increase(s, i, j - 1);
    }
}

/// A cell of a table of `n` rows and `m` columns lies inside the table.
pub proof fn lemma_cell_in_table(q: int, a: int, n: int, m: int)
    requires
        0 <= q < n,
        0 <= a < m,
    ensures
        0 <= q * m + a < n * m,
        q * m + a < (q + 1) * m,
        (q + 1) * m <= n * m,
{
    assert(q * m + a < (q + 1) * m) by (nonlinear_arith)
        requires
            0 <= a < m,
    ;
    assert((q + 1) * m <= n * m) by (nonlinear_arith)
        requires
            0 <= q < n,
            0 < m,
    ;
    assert(0 <= q * m) by (nonlinear_arith)
        requires
            0 <= q,
            0 < m,
    ;
}

impl Dfa {
    /// Builds the automaton that a parsed description describes.
    pub fn from_yaml(document: &crate::parser::YamlDFA) -> (r: Result<
        crate::parser::Fsm,
        crate::error::FsmError,
    >)
        requires
            document.wf(),
        ensures
            crate::parser::loads(*document, r),
    {
        crate::parser::from_yaml(document)
    }

    /// The alphabet in the order of its columns.
    pub open spec fn symbols(&self) -> Seq<char> {
        items_of(symbol_pairs(self.alphabet))
    }

    /// The number of states.
    pub open spec fn num_states(&self) -> nat {
        self.accept_states@.len()
    }

    /// The state keys in the order of their indices.
    pub open spec fn keys(&self) -> Seq<Seq<char>> {
        items_of(key_pairs(self.state_keys))
    }

    /// Whether every state has a key of its own: the keys number the states.
    pub open spec fn keyed(&self) -> bool {
        &&& key_pairs(self.state_keys).dom().finite()
        &&& indexes(key_pairs(self.state_keys))
        &&& self.keys().len() == self.num_states()
    }

    /// Tells whether every state has a key of its own.
    pub fn has_keys(&self) -> (ok: bool)
        ensures
            ok == self.keyed(),
    {
        let numbered = keys_numbered(&self.state_keys);
        let n = keys_len(&self.state_keys);
        numbered && n == self.accept_states.len()
    }

    /// Tells whether the invariants of a constructed automaton hold.
    #[verifier::rlimit(60)]
    pub fn is_well_formed(&self) -> (ok: bool)
        ensures
            ok == self.wf(),
    {
        if !symbols_numbered(&self.alphabet) {
            return false;
        }
        let m = symbols_len(&self.alphabet);
        let n = self.accept_states.len();
        proof {
            lemma_indexing_items(symbol_pairs(self.alphabet), self.symbols());
        }
        let mut a: usize = 1;
        while a < m
            invariant
                1 <= a,
                indexes(symbol_pairs(self.alphabet)),
                m == self.symbols().len(),
                forall|k: int|
                    0 < k < a && k < m ==> self.symbols()[k - 1] < #[trigger] self.symbols()[k],
            decreases m - a,
        {
            let before = self.symbol_key(a - 1);
            let here = self.symbol_key(a);
            if !(before < here) {
                return false;
            }
            a = a + 1;
        }
        proof {
            let symbols = self.symbols();
            assert forall|i: int, j: int| 0 <= i < j < symbols.len() implies symbols[i]
                < symbols[j] by {
                lemma_neighbours_increase(symbols, i, j);
            }
        }
        let table_size = self.transition_table.len();
        match n.checked_mul(m) {
            Some(size) => {
                if table_size != size {
                    return false;
                }
            },
            None => {
                return false;
            },
        }
        if self.start_state_idx >= n || self.state_properties.len() != n {
            return false;
        }
        let mut k: usize = 0;
        while k < self.transition_table.len()
            invariant
                k <= self.transition_table@.len(),
                n == self.num_states(),
                forall|x: int| 0 <= x < k ==> #[trigger] self.transition_table@[x] < n,
            decreases self.transition_table@.len() - k,
        {
            if self.transition_table[k] >= n {
                return false;
            }
            k = k + 1;
        }
        let mut q: usize = 0;
        while q < n
            invariant
                q <= n,
                n == self.num_states(),
                self.state_properties@.len() == n,
                forall|x: int|
                    0 <= x < q ==> (#[trigger] self.state_properties@[x]).accept
                        == self.accept_states@[x],
            decreases n - q,
        {
            if self.state_properties[q].accept != self.accept_states[q] {
                return false;
            }
            q = q + 1;
        }
        true
    }

    /// The character of column `a`.
    fn symbol_key(&self, a: usize) -> (c: char)
        requires
            indexes(symbol_pairs(self.alphabet)),
            a < self.symbols().len(),
        ensures
            c == self.symbols()[a as int],
    {
        proof {
            lemma_indexing_items(symbol_pairs(self.alphabet), self.symbols());
            let l = self.symbols()[a as int];
            assert(self.symbols().to_set().contains(l));
        }
        match symbols_get_by_right(&self.alphabet, a) {
            Some(c) => c,
            None => ' ',
        }
    }

    /// The key of state `i`.
    pub fn key_chars(&self, i: usize) -> (key: Vec<char>)
        requires
            self.keyed(),
            i < self.num_states(),
        ensures
            key@ == self.keys()[i as int],
    {
        proof {
            lemma_indexing_items(key_pairs(self.state_keys), self.keys());
            let l = self.keys()[i as int];
            assert(self.keys().to_set().contains(l));
        }
        match keys_get_by_right(&self.state_keys, i) {
            Some(key) => chars_of(key.as_str()),
            None => Vec::new(),
        }
    }

    /// The character of column `a`.
    pub fn symbol_at(&self, a: usize) -> (c: char)
        requires
            self.wf(),
            a < self.symbols().len(),
        ensures
            c == self.symbols()[a as int],
    {
        proof {
            lemma_indexing_items(symbol_pairs(self.alphabet), self.symbols());
            let l = self.symbols()[a as int];
            assert(self.symbols().to_set().contains(l));
        }
        match symbols_get_by_right(&self.alphabet, a) {
            Some(c) => c,
            None => ' ',
        }
    }

    /// The invariants of a constructed automaton: the alphabet is numbered
    /// in ascending order of its characters, the table has one cell for each
    /// state and character, each cell holds a state, and so does the start.
    pub open spec fn wf(&self) -> bool {
        &&& indexes(symbol_pairs(self.alphabet))
        &&& strictly_increasing(self.symbols())
        &&& self.transition_table@.len() == self.num_states() * self.symbols().len()
        &&& forall|k: int|
            0 <= k < self.transition_table@.len() ==> #[trigger] self.transition_table@[k]
                < self.num_states()
        &&& self.start_state_idx < self.num_states()
        &&& self.state_properties@.len() == self.num_states()
        &&& forall|q: int|
            0 <= q < self.num_states() ==> #[trigger] self.state_properties@[q].accept
                == self.accept_states@[q]
    }

    /// Whether `c` belongs to the alphabet.
    pub open spec fn in_alphabet(&self, c: char) -> bool {
        symbol_pairs(self.alphabet).contains_key(c)
    }

    /// The successor of state `q` on the character of column `a`.
    pub open spec fn successor(&self, q: int, a: int) -> int {
        self.transition_table@[q * self.symbols().len() + a] as int
    }

    /// The state reached from `q` on `c`, if `c` belongs to the alphabet.
    pub open spec fn next_state(&self, q: int, c: char) -> Option<int> {
        if self.in_alphabet(c) {
            Some(self.successor(q, symbol_pairs(self.alphabet)[c] as int))
        } else {
            None
        }
    }

    /// The state reached from `q` on the input `w`, if every character of
    /// `w` belongs to the alphabet.
    pub open spec fn state_after(&self, q: int, w: Seq<char>) -> Option<int>
        decreases w.len(),
    {
        if w.len() == 0 {
            Some(q)
        } else {
            match self.state_after(q, w.drop_last()) {
                Some(p) => self.next_state(p, w.last()),
                None => None,
            }
        }
    }

    /// Whether the automaton accepts `w` as a whole: `w` leads from the
    /// start state to an accepting state.
    pub open spec fn accepts(&self, w: Seq<char>) -> bool {
        match self.state_after(self.start_state_idx as int, w) {
            Some(q) => self.accept_states@[q],
            None => false,
        }
    }

    /// Every cell of the table holds a state: the successor of a state on a
    /// column is a state.
    pub proof fn lemma_successor_is_state(&self, q: int, a: int)
        requires
            self.wf(),
            0 <= q < self.num_states(),
            0 <= a < self.symbols().len(),
        ensures
            0 <= q * self.symbols().len() + a < self.transition_table@.len(),
            0 <= self.successor(q, a) < self.num_states(),
    {
        lemma_cell_in_table(q, a, self.num_states() as int, self.symbols().len() as int);
    }

    /// An input over the alphabet leads from a state to a state.
    pub proof fn lemma_state_after_is_state(&self, q: int, w: Seq<char>)
        requires
            self.wf(),
            0 <= q < self.num_states(),
        ensures
            self.state_after(q, w) matches Some(p) ==> 0 <= p < self.num_states(),
            self.state_after(q, w) is Some <==> forall|i: int|
                0 <= i < w.len() ==> self.in_alphabet(#[trigger] w[i]),
        decreases w.len(),
    {
        if w.len() > 0 {
            let front = w.drop_last();
            self.lemma_state_after_is_state(q, front);
            lemma_indexing_items(symbol_pairs(self.alphabet), self.symbols());
            match self.state_after(q, front) {
                Some(p) => {
                    if self.in_alphabet(w.last()) {
                        self.lemma_successor_is_state(
                            p,
                            symbol_pairs(self.alphabet)[w.last()] as int,
                        );
                        assert forall|i: int| 0 <= i < w.len() implies self.in_alphabet(
                            #[trigger] w[i],
                        ) by {
                            if i < front.len() {
                                assert(front[i] == w[i]);
                            }
                        }
                    } else {
                        assert(w[w.len() - 1] == w.last());
                    }
                },
                None => {
                    let i = choose|i: int| 0 <= i < front.len() && !self.in_alphabet(front[i]);
                    assert(front[i] == w[i]);
                },
            }
        }
    }

    /// An input is rejected once a prefix of it has left the alphabet.
    pub proof fn lemma_stuck_prefix(&self, q: int, w: Seq<char>, k: int)
        requires
            0 <= k <= w.len(),
            self.state_after(q, w.take(k)) is None,
        ensures
            self.state_after(q, w) is None,
        decreases w.len() - k,
    {
        if k < w.len() {
            assert(w.take(k + 1).drop_last() =~= w.take(k));
            self.lemma_stuck_prefix(q, w, k + 1);
        } else {
            assert(w.take(k) =~= w);
        }
    }

    /// Two automata with the same alphabet, table, start state and accepting
    /// states are in the same state after the same input.
    pub proof fn lemma_same_run(&self, other: &Dfa, q: int, w: Seq<char>)
        requires
            symbol_pairs(self.alphabet) == symbol_pairs(other.alphabet),
            self.transition_table@ == other.transition_table@,
        ensures
            self.state_after(q, w) == other.state_after(q, w),
        decreases w.len(),
    {
        if w.len() > 0 {
            self.lemma_same_run(other, q, w.drop_last());
        }
    }

    /// Two automata with the same alphabet, table, start state and accepting
    /// states accept the same inputs.
    pub proof fn lemma_same_language(&self, other: &Dfa, w: Seq<char>)
        requires
            symbol_pairs(self.alphabet) == symbol_pairs(other.alphabet),
            self.transition_table@ == other.transition_table@,
            self.start_state_idx == other.start_state_idx,
            self.accept_states@ == other.accept_states@,
        ensures
            self.accepts(w) == other.accepts(w),
    {
        self.lemma_same_run(other, self.start_state_idx as int, w);
    }

    /// The table of a constructed automaton has one cell for each state and
    /// character, every cell holds a state, and there is one accepting flag
    /// and one record of properties for each state.
    pub proof fn lemma_shape(&self)
        requires
            self.wf(),
        ensures
            self.transition_table@.len() == self.num_states() * self.symbols().len(),
            forall|q: int, a: int|
                0 <= q < self.num_states() && 0 <= a < self.symbols().len() ==> 0
                    <= #[trigger] self.successor(q, a) < self.num_states(),
            self.accept_states@.len() == self.num_states(),
            self.state_properties@.len() == self.num_states(),
    {
        assert forall|q: int, a: int|
            0 <= q < self.num_states() && 0 <= a < self.symbols().len() implies 0
            <= #[trigger] self.successor(q, a) < self.num_states() by {
            self.lemma_successor_is_state(q, a);
        }
    }

    /// The empty input is accepted exactly when the start state accepts.
    pub proof fn lemma_empty_input(&self)
        ensures
            self.accepts(Seq::<char>::empty()) == self.accept_states@[self.start_state_idx as int],
    {
    }

    /// An input that holds a character outside the alphabet is rejected.
    pub proof fn lemma_outside_alphabet_rejected(&self, w: Seq<char>, i: int)
        requires
            self.wf(),
            0 <= i < w.len(),
            !self.in_alphabet(w[i]),
        ensures
            !self.accepts(w),
    {
        self.lemma_state_after_is_state(self.start_state_idx as int, w);
    }

    /// An automaton without accepting states rejects every input.
    pub proof fn lemma_no_accepting_state(&self, w: Seq<char>)
        requires
            self.wf(),
            forall|q: int| 0 <= q < self.num_states() ==> !self.accept_states@[q],
        ensures
            !self.accepts(w),
    {
        self.lemma_state_after_is_state(self.start_state_idx as int, w);
    }

    /// Runs the automaton on `input` and tells whether it accepts. A
    /// character outside the alphabet rejects the input.
    pub fn run(&self, input: &str) -> (accepted: bool)
        requires
            self.wf(),
        ensures
            accepted == self.accepts(input@),
    {
        let alphabet_size = symbols_len(&self.alphabet);
        let table_size = self.transition_table.len();
        let mut current_state = self.start_state_idx;
        let mut previous: Option<(char, usize)> = None;
        proof {
            lemma_indexing_items(symbol_pairs(self.alphabet), self.symbols());
            assert(input@.take(0) =~= Seq::<char>::empty());
        }
        for c in it: input.chars()
            invariant
                it.seq() == input@,
                self.wf(),
                alphabet_size == self.symbols().len(),
                table_size == self.transition_table@.len(),
                current_state < self.num_states(),
                self.state_after(self.start_state_idx as int, input@.take(it.index() as int))
                    == Some(current_state as int),
                previous matches Some((pc, pi)) ==> self.in_alphabet(pc) && symbol_pairs(
                    self.alphabet,
                )[pc] == pi,
        {
            let ghost k = it.index() as int;
            proof {
                assert(input@.take(k + 1).drop_last() =~= input@.take(k));
                assert(input@.take(k + 1).last() == c);
                lemma_indexing_items(symbol_pairs(self.alphabet), self.symbols());
            }
            let cached = match previous {
                Some((pc, pi)) => if pc == c {
                    Some(pi)
                } else {
                    None
                },
                None => None,
            };
            let alphabet_idx = match cached {
                Some(idx) => idx,
                None => match symbols_get_by_left(&self.alphabet, c) {
                    Some(idx) => {
                        previous = Some((c, idx));
                        idx
                    },
                    None => {
                        proof {
                            self.lemma_stuck_prefix(self.start_state_idx as int, input@, k + 1);
                        }
                        return false;
                    },
                },
            };
            proof {
                self.lemma_successor_is_state(current_state as int, alphabet_idx as int);
                lemma_cell_in_table(
                    current_state as int,
                    alphabet_idx as int,
                    self.num_states() as int,
                    alphabet_size as int,
                );
            }
            current_state = self.transition_table[current_state * alphabet_size + alphabet_idx];
        }
        proof {
            assert(input@.take(input@.len() as int) =~= input@);
        }
        self.accept_states[current_state]
    }
}

} // verus!
