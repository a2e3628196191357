//! The subset construction is determined by the automaton and the
//! alphabet: two deterministic automata that are subset constructions of the
//! same automaton have the same states in the same order and the same table.

use crate::determinize::{
    cell, cell_ok, determinizes, first_reference, in_discovery_order, lemma_table_values,
    precedes,
};
use crate::dfa::Dfa;
use crate::indexing::{lemma_indexing_is_numbering, symbol_pairs};
use crate::nfa::{meets, step, Edge};
use vstd::prelude::*;

verus! {

/// A cell that leads to the state of a subset is the cell of a transition
/// that reaches the subset.
proof fn lemma_cell_reaches(
    edges: Set<Edge>,
    start: usize,
    accept: Set<usize>,
    alphabet: Seq<char>,
    subsets: Seq<Set<usize>>,
    d: &Dfa,
    i: int,
    a: int,
)
    requires
        determinizes(edges, start, accept, alphabet, subsets, d),
        0 <= i < subsets.len(),
        0 <= a < alphabet.len(),
        0 <= d.successor(i, a) < subsets.len(),
    ensures
        step(edges, subsets[i], alphabet[a]) != Set::<usize>::empty(),
        subsets[d.successor(i, a)] == step(edges, subsets[i], alphabet[a]),
{
    assert(cell_ok(edges, alphabet, subsets, i, a, d.successor(i, a)));
}

/// A transition that reaches a state leads to the state of a subset.
proof fn lemma_reached_has_cell(
    edges: Set<Edge>,
    start: usize,
    accept: Set<usize>,
    alphabet: Seq<char>,
    subsets: Seq<Set<usize>>,
    d: &Dfa,
    i: int,
    a: int,
)
    requires
        determinizes(edges, start, accept, alphabet, subsets, d),
        0 <= i < subsets.len(),
        0 <= a < alphabet.len(),
        step(edges, subsets[i], alphabet[a]) != Set::<usize>::empty(),
    ensures
        0 <= d.successor(i, a) < subsets.len(),
        subsets[d.successor(i, a)] == step(edges, subsets[i], alphabet[a]),
{
    assert(cell_ok(edges, alphabet, subsets, i, a, d.successor(i, a)));
}

/// Two subset constructions of the same automaton give the same subset to
/// each state that both have.
#[verifier::rlimit(60)]
pub proof fn lemma_same_subset(
    edges: Set<Edge>,
    start: usize,
    accept: Set<usize>,
    alphabet: Seq<char>,
    s1: Seq<Set<usize>>,
    d1: &Dfa,
    s2: Seq<Set<usize>>,
    d2: &Dfa,
    k: int,
)
    requires
        determinizes(edges, start, accept, alphabet, s1, d1),
        determinizes(edges, start, accept, alphabet, s2, d2),
        0 <= k < s1.len(),
        k < s2.len(),
    ensures
        s1[k] == s2[k],
    decreases k,
{
    if k > 0 {
        let n1 = s1.len() as int;
        let n2 = s2.len() as int;
        assert(in_discovery_order(d1, n1, k));
        let (i1, a1) = choose|i: int, a: int| #[trigger] first_reference(d1, n1, k, i, a);
        lemma_cell_reaches(edges, start, accept, alphabet, s1, d1, i1, a1);
        lemma_same_subset(edges, start, accept, alphabet, s1, d1, s2, d2, i1);
        lemma_reached_has_cell(edges, start, accept, alphabet, s2, d2, i1, a1);
        let j2 = d2.successor(i1, a1);
        if j2 < k {
            lemma_same_subset(edges, start, accept, alphabet, s1, d1, s2, d2, j2);
            assert(s1[j2] != s1[k]);
        } else if j2 > k {
            assert(in_discovery_order(d2, n2, k));
            let (i2, a2) = choose|i: int, a: int| #[trigger] first_reference(d2, n2, k, i, a);
            if precedes(i1, a1, i2, a2) {
                assert(d2.successor(i1, a1) < k || d2.successor(i1, a1) == n2);
            } else if i1 == i2 && a1 == a2 {
            } else {
                assert(precedes(i2, a2, i1, a1));
                assert(d1.successor(i2, a2) < k || d1.successor(i2, a2) == n1);
                lemma_cell_reaches(edges, start, accept, alphabet, s2, d2, i2, a2);
                lemma_same_subset(edges, start, accept, alphabet, s1, d1, s2, d2, i2);
                lemma_reached_has_cell(edges, start, accept, alphabet, s1, d1, i2, a2);
                let j1 = d1.successor(i2, a2);
                lemma_same_subset(edges, start, accept, alphabet, s1, d1, s2, d2, j1);
                assert(s2[j1] != s2[k]);
            }
        }
    }
}

/// A subset construction has no more states than another of the same
/// automaton.
proof fn lemma_no_more_subsets(
    edges: Set<Edge>,
    start: usize,
    accept: Set<usize>,
    alphabet: Seq<char>,
    s1: Seq<Set<usize>>,
    d1: &Dfa,
    s2: Seq<Set<usize>>,
    d2: &Dfa,
)
    requires
        determinizes(edges, start, accept, alphabet, s1, d1),
        determinizes(edges, start, accept, alphabet, s2, d2),
    ensures
        s2.len() <= s1.len(),
{
    let n1 = s1.len() as int;
    let n2 = s2.len() as int;
    if n1 < n2 {
        let k = n1;
        assert(in_discovery_order(d2, n2, k));
        let (i2, a2) = choose|i: int, a: int| #[trigger] first_reference(d2, n2, k, i, a);
        lemma_cell_reaches(edges, start, accept, alphabet, s2, d2, i2, a2);
        lemma_same_subset(edges, start, accept, alphabet, s1, d1, s2, d2, i2);
        lemma_reached_has_cell(edges, start, accept, alphabet, s1, d1, i2, a2);
        let j1 = d1.successor(i2, a2);
        lemma_same_subset(edges, start, accept, alphabet, s1, d1, s2, d2, j1);
        assert(s2[j1] != s2[k]);
    }
}

/// The subset construction is unique: two deterministic automata that are
/// subset constructions of the same automaton over the same alphabet stand
/// for the same subsets in the same order and have the same table, start
/// state and accepting states.
#[verifier::rlimit(60)]
pub proof fn lemma_determinization_unique(
    edges: Set<Edge>,
    start: usize,
    accept: Set<usize>,
    alphabet: Seq<char>,
    s1: Seq<Set<usize>>,
    d1: &Dfa,
    s2: Seq<Set<usize>>,
    d2: &Dfa,
)
    requires
        d1.wf(),
        d2.wf(),
        determinizes(edges, start, accept, alphabet, s1, d1),
        determinizes(edges, start, accept, alphabet, s2, d2),
    ensures
        s1 == s2,
        symbol_pairs(d1.alphabet) == symbol_pairs(d2.alphabet),
        d1.start_state_idx == d2.start_state_idx,
        d1.transition_table@ == d2.transition_table@,
        d1.accept_states@ == d2.accept_states@,
{
    lemma_no_more_subsets(edges, start, accept, alphabet, s1, d1, s2, d2);
    lemma_no_more_subsets(edges, start, accept, alphabet, s2, d2, s1, d1);
    let n = s1.len() as int;
    let m = alphabet.len() as int;
    assert forall|k: int| 0 <= k < n implies s1[k] == s2[k] by {
        lemma_same_subset(edges, start, accept, alphabet, s1, d1, s2, d2, k);
    }
    assert(s1 =~= s2);
    lemma_indexing_is_numbering(symbol_pairs(d1.alphabet), d1.symbols());
    lemma_indexing_is_numbering(symbol_pairs(d2.alphabet), d2.symbols());
    let total = d1.num_states() as int;
    assert(d2.num_states() == total);
    assert forall|q: int| 0 <= q < total implies d1.accept_states@[q] == d2.accept_states@[q] by {
        if q < n {
            assert(d1.accept_states@[q] == meets(s1[q], accept));
            assert(d2.accept_states@[q] == meets(s2[q], accept));
        }
    }
    assert(d1.accept_states@ =~= d2.accept_states@);
    assert forall|k: int| 0 <= k < d1.transition_table@.len() implies d1.transition_table@[k]
        == d2.transition_table@[k] by {
        lemma_table_values(d1.transition_table@, m, total, k);
        lemma_table_values(d2.transition_table@, m, total, k);
        let q = k / m;
        let a = k % m;
        assert(cell(d1.transition_table@, m, q, a) == d1.successor(q, a));
        assert(cell(d2.transition_table@, m, q, a) == d2.successor(q, a));
        if q < n {
            assert(cell_ok(edges, alphabet, s1, q, a, d1.successor(q, a)));
            assert(cell_ok(edges, alphabet, s2, q, a, d2.successor(q, a)));
        } else {
            assert(d1.successor(n, a) == n);
            assert(d2.successor(n, a) == n);
        }
    }
    assert(d1.transition_table@ =~= d2.transition_table@);
}

} // verus!
