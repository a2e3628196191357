//! The nondeterministic automaton with epsilon moves, what it accepts, and
//! the two operations on sets of states from which the subset construction is
//! built.

use crate::indexing::{
    indexes, items_of, key_pairs, keys_get_by_right, keys_len, keys_numbered,
    lemma_indexing_items,
};
use crate::text::chars_of;
use crate::stateset::StateSet;
use bimap::BiMap;
use vstd::prelude::*;

verus! {

/// A transition: the source state, the character that fires it (`None` for
/// an epsilon move) and the target state.
pub type Edge = (usize, Option<char>, usize);

/// Whether `to` is reached from `from` by exactly `steps` epsilon moves.
pub open spec fn eps_path(edges: Set<Edge>, from: usize, to: usize, steps: nat) -> bool
    decreases steps,
{
    if steps == 0 {
        from == to
    } else {
        exists|mid: usize|
            eps_path(edges, from, mid, (steps - 1) as nat) && #[trigger] edges.contains(
                (mid, None::<char>, to),
            )
    }
}

/// Whether `to` is reached from `from` by epsilon moves alone.
pub open spec fn eps_reach(edges: Set<Edge>, from: usize, to: usize) -> bool {
    exists|steps: nat| eps_path(edges, from, to, steps)
}

/// The states reached from a state of `states` by epsilon moves alone.
pub open spec fn eps_closure(edges: Set<Edge>, states: Set<usize>) -> Set<usize> {
    Set::new(|q: usize| exists|p: usize| states.contains(p) && eps_reach(edges, p, q))
}

/// The states reached from a state of `states` by one transition on `c`.
pub open spec fn move_on(edges: Set<Edge>, states: Set<usize>, c: char) -> Set<usize> {
    Set::new(|q: usize| exists|p: usize| states.contains(p) && edges.contains((p, Some(c), q)))
}

/// The states in which the automaton may be after reading `c` in one of
/// `states`.
pub open spec fn step(edges: Set<Edge>, states: Set<usize>, c: char) -> Set<usize> {
    eps_closure(edges, move_on(edges, states, c))
}

/// The states in which the automaton may be after reading `w`, having
/// started in one of `states`.
pub open spec fn states_after(edges: Set<Edge>, states: Set<usize>, w: Seq<char>) -> Set<usize>
    decreases w.len(),
{
    if w.len() == 0 {
        states
    } else {
        step(edges, states_after(edges, states, w.drop_last()), w.last())
    }
}

/// Whether two sets of states share a state.
pub open spec fn meets(a: Set<usize>, b: Set<usize>) -> bool {
    exists|q: usize| a.contains(q) && b.contains(q)
}

/// Every state reaches itself, and a reached state passes on what it reaches
/// by one more epsilon move.
pub proof fn lemma_eps_reach_step(edges: Set<Edge>, from: usize, mid: usize, to: usize)
    requires
        eps_reach(edges, from, mid),
        edges.contains((mid, None::<char>, to)),
    ensures
        eps_reach(edges, from, to),
        eps_reach(edges, from, from),
{
    let n = choose|n: nat| eps_path(edges, from, mid, n);
    assert(eps_path(edges, from, to, n + 1));
    assert(eps_path(edges, from, from, 0));
}

/// A set that holds `states` and is closed under epsilon moves holds the
/// closure of `states`.
pub proof fn lemma_closed_holds_closure(edges: Set<Edge>, states: Set<usize>, closed: Set<usize>)
    requires
        states.subset_of(closed),
        forall|p: usize, q: usize|
            closed.contains(p) && edges.contains((p, None::<char>, q)) ==> closed.contains(q),
    ensures
        eps_closure(edges, states).subset_of(closed),
{
    assert forall|q: usize| eps_closure(edges, states).contains(q) implies closed.contains(q) by {
        let p = choose|p: usize| states.contains(p) && eps_reach(edges, p, q);
        let n = choose|n: nat| eps_path(edges, p, q, n);
        lemma_path_stays(edges, closed, p, q, n);
    }
}

/// A path of epsilon moves that starts in a set closed under epsilon moves
/// ends in it.
proof fn lemma_path_stays(edges: Set<Edge>, closed: Set<usize>, p: usize, q: usize, n: nat)
    requires
        closed.contains(p),
        eps_path(edges, p, q, n),
        forall|a: usize, b: usize|
            closed.contains(a) && edges.contains((a, None::<char>, b)) ==> closed.contains(b),
    ensures
        closed.contains(q),
    decreases n,
{
    if n > 0 {
        let mid = choose|mid: usize|
            eps_path(edges, p, mid, (n - 1) as nat) && #[trigger] edges.contains(
                (mid, None::<char>, q),
            );
        lemma_path_stays(edges, closed, p, mid, (n - 1) as nat);
    }
}

/// The closure of the empty set is empty, and so is what is reached from it
/// on a character.
pub proof fn lemma_step_from_nothing(edges: Set<Edge>, c: char)
    ensures
        eps_closure(edges, Set::<usize>::empty()) == Set::<usize>::empty(),
        move_on(edges, Set::<usize>::empty(), c) == Set::<usize>::empty(),
        step(edges, Set::<usize>::empty(), c) == Set::<usize>::empty(),
{
    assert(eps_closure(edges, Set::<usize>::empty()) =~= Set::<usize>::empty());
    assert(move_on(edges, Set::<usize>::empty(), c) =~= Set::<usize>::empty());
}

/// A nondeterministic automaton with epsilon moves.
#[derive(Debug)]
pub struct Nfa {
    /// The transitions, each listed once.
    pub transitions: Vec<Edge>,
    pub start_state: usize,
    /// The indices of the accepting states.
    pub nfa_accept_states: StateSet,
    /// Each state key with the index of its state.
    pub nfa_state_keys: BiMap<String, usize>,
}

impl Nfa {
    /// The set of transitions.
    pub open spec fn edges(&self) -> Set<Edge> {
        self.transitions@.to_set()
    }

    /// The state keys in the order of their indices.
    pub open spec fn keys(&self) -> Seq<Seq<char>> {
        items_of(key_pairs(self.nfa_state_keys))
    }

    /// The number of states.
    pub open spec fn num_states(&self) -> nat {
        self.keys().len()
    }

    /// The invariants of a constructed automaton: the keys number the states,
    /// the start state and the ends of every transition are states, and no
    /// transition is listed twice.
    pub open spec fn wf(&self) -> bool {
        &&& indexes(key_pairs(self.nfa_state_keys))
        &&& self.nfa_accept_states.wf()
        &&& self.transitions@.no_duplicates()
        &&& self.start_state < self.num_states()
        &&& forall|i: int|
            0 <= i < self.transitions@.len() ==> (#[trigger] self.transitions@[i]).0
                < self.num_states() && self.transitions@[i].2 < self.num_states()
    }

    /// The states in which the automaton may be before it reads anything.
    pub open spec fn initial_states(&self) -> Set<usize> {
        eps_closure(self.edges(), set![self.start_state])
    }

    /// Whether the automaton accepts `w` as a whole: after reading `w` it
    /// may be in an accepting state.
    pub open spec fn accepts(&self, w: Seq<char>) -> bool {
        meets(states_after(self.edges(), self.initial_states(), w), self.nfa_accept_states@)
    }

    /// Tells whether the invariants of a constructed automaton hold.
    pub fn is_well_formed(&self) -> (ok: bool)
        ensures
            ok == self.wf(),
    {
        if !keys_numbered(&self.nfa_state_keys) || !self.nfa_accept_states.is_well_formed() {
            return false;
        }
        let n = keys_len(&self.nfa_state_keys);
        proof {
            lemma_indexing_items(key_pairs(self.nfa_state_keys), self.keys());
        }
        if self.start_state >= n {
            return false;
        }
        let mut i: usize = 0;
        while i < self.transitions.len()
            invariant
                i <= self.transitions@.len(),
                n == self.num_states(),
                forall|x: int|
                    0 <= x < i ==> (#[trigger] self.transitions@[x]).0 < n
                        && self.transitions@[x].2 < n,
                forall|x: int, y: int|
                    0 <= x < i && 0 <= y < x ==> self.transitions@[x] != self.transitions@[y],
            decreases self.transitions@.len() - i,
        {
            let (from, on, to) = self.transitions[i];
            if from >= n || to >= n {
                return false;
            }
            let mut j: usize = 0;
            while j < i
                invariant
                    j <= i,
                    i < self.transitions@.len(),
                    self.transitions@[i as int] == (from, on, to),
                    forall|y: int| 0 <= y < j ==> self.transitions@[i as int] != self.transitions@[y],
                decreases i - j,
            {
                let (f, o, t) = self.transitions[j];
                let same_symbol = match (o, on) {
                    (Some(x), Some(y)) => x == y,
                    (None, None) => true,
                    _ => false,
                };
                if f == from && t == to && same_symbol {
                    proof {
                        assert(self.transitions@[j as int] == self.transitions@[i as int]);
                    }
                    return false;
                }
                j = j + 1;
            }
            i = i + 1;
        }
        proof {
            assert forall|x: int, y: int|
                0 <= x < self.transitions@.len() && 0 <= y < self.transitions@.len() && x
                    != y implies self.transitions@[x] != self.transitions@[y] by {
                if y < x {
                    assert(self.transitions@[x] != self.transitions@[y]);
                } else {
                    assert(self.transitions@[y] != self.transitions@[x]);
                }
            }
        }
        true
    }

    /// The key of state `i`.
    pub fn key_chars(&self, i: usize) -> (key: Vec<char>)
        requires
            self.wf(),
            i < self.num_states(),
        ensures
            key@ == self.keys()[i as int],
    {
        proof {
            lemma_indexing_items(key_pairs(self.nfa_state_keys), self.keys());
            let l = self.keys()[i as int];
            assert(self.keys().to_set().contains(l));
        }
        match keys_get_by_right(&self.nfa_state_keys, i) {
            Some(key) => chars_of(key.as_str()),
            None => Vec::new(),
        }
    }

    /// Calculates the states reached from `states` by epsilon moves alone.
    #[verifier::rlimit(60)]
    pub fn epsilon_closure(&self, states: &StateSet) -> (closure: StateSet)
        requires
            states.wf(),
        ensures
            closure.wf(),
            closure@ == eps_closure(self.edges(), states@),
    {
        let mut closure = states.duplicate();
        let mut worklist: Vec<usize> = states.to_vec();
        let ghost edges = self.edges();
        proof {
            states.lemma_seq();
            assert forall|q: usize| closure@.contains(q) implies eps_closure(
                edges,
                states@,
            ).contains(q) by {
                assert(eps_path(edges, q, q, 0));
            }
        }
        while worklist.len() > 0
            invariant
                states.wf(),
                closure.wf(),
                edges == self.edges(),
                states@.subset_of(closure@),
                closure@.subset_of(eps_closure(edges, states@)),
                forall|i: int| 0 <= i < worklist@.len() ==> closure@.contains(worklist@[i]),
                forall|p: usize, q: usize|
                    closure@.contains(p) && edges.contains((p, None::<char>, q))
                        ==> closure@.contains(q) || worklist@.contains(p),
            decreases (usize::MAX - closure.seq().len()) + worklist@.len(),
        {
            let ghost before = worklist@;
            let state = worklist.pop().unwrap();
            let ghost rest = worklist@;
            let ghost start_len = closure.seq().len();
            proof {
                closure.lemma_seq();
                assert forall|p: usize| before.contains(p) implies rest.contains(p) || p
                    == state by {
                    let k = choose|k: int| 0 <= k < before.len() && before[k] == p;
                    if k < rest.len() {
                        assert(rest[k] == p);
                    }
                }
            }
            let mut i: usize = 0;
            while i < self.transitions.len()
                invariant
                    closure.wf(),
                    edges == self.edges(),
                    i <= self.transitions@.len(),
                    states@.subset_of(closure@),
                    closure@.subset_of(eps_closure(edges, states@)),
                    closure@.contains(state),
                    forall|k: int| 0 <= k < worklist@.len() ==> closure@.contains(worklist@[k]),
                    forall|p: usize, q: usize|
                        closure@.contains(p) && p != state && edges.contains(
                            (p, None::<char>, q),
                        ) ==> closure@.contains(q) || worklist@.contains(p),
                    forall|k: int|
                        0 <= k < i && (#[trigger] self.transitions@[k]).0 == state
                            && self.transitions@[k].1 is None ==> closure@.contains(
                            self.transitions@[k].2,
                        ),
                    closure.seq().len() - start_len == worklist@.len() - rest.len(),
                    closure.seq().len() <= usize::MAX,
                decreases self.transitions@.len() - i,
            {
                let (from, on, to) = self.transitions[i];
                if from == state && on.is_none() {
                    let ghost closure_before = closure@;
                    let ghost worklist_before = worklist@;
                    proof {
                        closure.lemma_seq();
                    }
                    let added = closure.insert(to);
                    proof {
                        closure.lemma_seq();
                        assert(edges.contains(self.transitions@[i as int]));
                        assert(edges.contains((state, None::<char>, to)));
                        let p = choose|p: usize|
                            states@.contains(p) && eps_reach(edges, p, state);
                        lemma_eps_reach_step(edges, p, state, to);
                        assert(eps_closure(edges, states@).contains(to));
                    }
                    if added {
                        worklist.push(to);
                        proof {
                            assert forall|p: usize| worklist_before.contains(p) implies worklist@.contains(
                                p,
                            ) by {
                                let k = choose|k: int|
                                    0 <= k < worklist_before.len() && worklist_before[k] == p;
                                assert(worklist@[k] == p);
                            }
                            assert(worklist@[worklist@.len() - 1] == to);
                            assert(worklist@.contains(to));
                        }
                    }
                }
                i = i + 1;
            }
            proof {
                assert forall|p: usize, q: usize|
                    closure@.contains(p) && edges.contains(
                        (p, None::<char>, q),
                    ) implies closure@.contains(q) || worklist@.contains(p) by {
                    if p == state {
                        let k = choose|k: int|
                            0 <= k < self.transitions@.len() && self.transitions@[k] == (
                                p,
                                None::<char>,
                                q,
                            );
                        assert(self.transitions@[k].0 == state);
                    }
                }
            }
        }
        proof {
            assert forall|p: usize, q: usize|
                closure@.contains(p) && edges.contains((p, None::<char>, q)) implies closure@.contains(
                q,
            ) by {
                if worklist@.contains(p) {
                    let k = choose|k: int| 0 <= k < worklist@.len() && worklist@[k] == p;
                }
            }
            lemma_closed_holds_closure(edges, states@, closure@);
            assert(closure@ =~= eps_closure(edges, states@));
        }
        closure
    }

    /// Finds the states reached from `states` by one transition on `symbol`.
    pub fn move_on_char(&self, states: &StateSet, symbol: char) -> (result: StateSet)
        requires
            states.wf(),
        ensures
            result.wf(),
            result@ == move_on(self.edges(), states@, symbol),
    {
        let mut result = StateSet::new();
        let mut i: usize = 0;
        while i < self.transitions.len()
            invariant
                states.wf(),
                result.wf(),
                i <= self.transitions@.len(),
                result@ == move_on(self.transitions@.take(i as int).to_set(), states@, symbol),
            decreases self.transitions@.len() - i,
        {
            let (from, on, to) = self.transitions[i];
            let ghost seen = self.transitions@.take(i as int);
            let ghost more = self.transitions@.take(i as int + 1);
            proof {
                assert(more =~= seen.push(self.transitions@[i as int]));
                seen.lemma_push_to_set_commute(self.transitions@[i as int]);
            }
            let fires = match on {
                Some(c) => c == symbol && states.contains(from),
                None => false,
            };
            if fires {
                result.insert(to);
                proof {
                    assert(more.to_set().contains((from, Some(symbol), to)));
                    assert(result@ =~= move_on(more.to_set(), states@, symbol));
                }
            } else {
                proof {
                    assert(result@ =~= move_on(more.to_set(), states@, symbol));
                }
            }
            i = i + 1;
        }
        proof {
            assert(self.transitions@.take(i as int) =~= self.transitions@);
        }
        result
    }
}

} // verus!
