//! Thompson's construction: from an expression to a nondeterministic
//! automaton with one start state and one accepting state.

use crate::nfa::Edge;
use crate::regex_parser::Expression;
use vstd::prelude::*;

verus! {

/// The number of states that the construction makes for `e`.
pub open spec fn state_count(e: Expression) -> nat
    decreases e,
{
    match e {
        Expression::Epsilon => 2,
        Expression::Literal(_) => 2,
        Expression::Concat(a, b) => state_count(*a) + state_count(*b),
        Expression::Alternate(a, b) => 2 + state_count(*a) + state_count(*b),
        Expression::Star(a) => 2 + state_count(*a),
    }
}

/// The start state of the automaton of `e` when its states are numbered
/// from `base`.
pub open spec fn fragment_start(e: Expression, base: int) -> int
    decreases e,
{
    match e {
        Expression::Concat(a, _) => fragment_start(*a, base),
        _ => base,
    }
}

/// The accepting state of the automaton of `e` when its states are numbered
/// from `base`.
pub open spec fn fragment_end(e: Expression, base: int) -> int
    decreases e,
{
    match e {
        Expression::Concat(a, b) => fragment_end(*b, base + state_count(*a)),
        _ => base + 1,
    }
}

/// The transition from `from` to `to` on `on`.
pub open spec fn edge(from: int, on: Option<char>, to: int) -> Edge {
    (from as usize, on, to as usize)
}

/// The transitions of the automaton of `e` when its states are numbered
/// from `base`.
///
/// The empty expression and a literal have two states and one transition
/// between them. A concatenation joins the automata of its operands by an
/// epsilon move from the end of the first to the start of the second. An
/// alternation and a repetition have a new start `base` and a new end
/// `base + 1`, joined to the automata of their operands by epsilon moves; a
/// repetition may skip its operand and return from its end to its start.
pub open spec fn thompson(e: Expression, base: int) -> Set<Edge>
    decreases e,
{
    match e {
        Expression::Epsilon => set![edge(base, None, base + 1)],
        Expression::Literal(c) => set![edge(base, Some(c), base + 1)],
        Expression::Concat(a, b) => {
            let second = base + state_count(*a);
            thompson(*a, base).union(thompson(*b, second)).insert(
                edge(fragment_end(*a, base), None, fragment_start(*b, second)),
            )
        },
        Expression::Alternate(a, b) => {
            let first = base + 2;
            let second = first + state_count(*a);
            thompson(*a, first).union(thompson(*b, second)).insert(
                edge(base, None, fragment_start(*a, first)),
            ).insert(edge(base, None, fragment_start(*b, second))).insert(
                edge(fragment_end(*a, first), None, base + 1),
            ).insert(edge(fragment_end(*b, second), None, base + 1))
        },
        Expression::Star(a) => {
            let inner = base + 2;
            thompson(*a, inner).insert(edge(base, None, base + 1)).insert(
                edge(base, None, fragment_start(*a, inner)),
            ).insert(edge(fragment_end(*a, inner), None, base + 1)).insert(
                edge(fragment_end(*a, inner), None, fragment_start(*a, inner)),
            )
        },
    }
}

/// The automaton of `e` numbered from `base` uses the states from `base` up
/// to `base + state_count(e)`, not counting the last, and no others.
pub proof fn lemma_thompson_bounds(e: Expression, base: int)
    requires
        0 <= base,
        base + state_count(e) <= usize::MAX,
    ensures
        state_count(e) >= 2,
        base <= fragment_start(e, base) < base + state_count(e),
        base <= fragment_end(e, base) < base + state_count(e),
        forall|t: Edge| #[trigger]
            thompson(e, base).contains(t) ==> base <= t.0 < base + state_count(e) && base <= t.2
                < base + state_count(e),
    decreases e,
{
    match e {
        Expression::Epsilon => {},
        Expression::Literal(_) => {},
        Expression::Concat(a, b) => {
            lemma_thompson_bounds(*a, base);
            lemma_thompson_bounds(*b, base + state_count(*a));
        },
        Expression::Alternate(a, b) => {
            lemma_thompson_bounds(*a, base + 2);
            lemma_thompson_bounds(*b, base + 2 + state_count(*a));
        },
        Expression::Star(a) => {
            lemma_thompson_bounds(*a, base + 2);
        },
    }
    assert forall|t: Edge| #[trigger] thompson(e, base).contains(t) implies base <= t.0 < base
        + state_count(e) && base <= t.2 < base + state_count(e) by {
        match e {
            Expression::Epsilon => {},
            Expression::Literal(_) => {},
            Expression::Concat(a, b) => {
                let second = base + state_count(*a);
                if thompson(*a, base).contains(t) {
                } else if thompson(*b, second).contains(t) {
                }
            },
            Expression::Alternate(a, b) => {
                let first = base + 2;
                let second = first + state_count(*a);
                if thompson(*a, first).contains(t) {
                } else if thompson(*b, second).contains(t) {
                }
            },
            Expression::Star(a) => {
                if thompson(*a, base + 2).contains(t) {
                }
            },
        }
    }
}

/// The list `edges` with `e` at the end, unless `edges` holds `e` already.
pub open spec fn add_edge(edges: Seq<Edge>, e: Edge) -> Seq<Edge> {
    if edges.contains(e) {
        edges
    } else {
        edges.push(e)
    }
}

/// The transitions of the automaton of `e` numbered from `base`, in the
/// order in which the construction makes them: those of the operands first,
/// then those that join them.
pub open spec fn thompson_seq(e: Expression, base: int) -> Seq<Edge>
    decreases e,
{
    match e {
        Expression::Epsilon => seq![edge(base, None, base + 1)],
        Expression::Literal(c) => seq![edge(base, Some(c), base + 1)],
        Expression::Concat(a, b) => {
            let second = base + state_count(*a);
            thompson_seq(*a, base) + thompson_seq(*b, second) + seq![
                edge(fragment_end(*a, base), None, fragment_start(*b, second)),
            ]
        },
        Expression::Alternate(a, b) => {
            let first = base + 2;
            let second = first + state_count(*a);
            thompson_seq(*a, first) + thompson_seq(*b, second) + seq![
                edge(base, None, fragment_start(*a, first)),
                edge(base, None, fragment_start(*b, second)),
                edge(fragment_end(*a, first), None, base + 1),
                edge(fragment_end(*b, second), None, base + 1),
            ]
        },
        Expression::Star(a) => {
            let inner = base + 2;
            thompson_seq(*a, inner) + seq![
                edge(base, None, base + 1),
                edge(base, None, fragment_start(*a, inner)),
                edge(fragment_end(*a, inner), None, base + 1),
                edge(fragment_end(*a, inner), None, fragment_start(*a, inner)),
            ]
        },
    }
}

/// The listed transitions of an automaton are its transitions.
pub proof fn lemma_thompson_seq(e: Expression, base: int)
    ensures
        thompson_seq(e, base).to_set() == thompson(e, base),
    decreases e,
{
    let listed = thompson_seq(e, base);
    match e {
        Expression::Epsilon => {
            assert(listed[0] == edge(base, None, base + 1));
        },
        Expression::Literal(c) => {
            assert(listed[0] == edge(base, Some(c), base + 1));
        },
        Expression::Concat(a, b) => {
            let second = base + state_count(*a);
            lemma_thompson_seq(*a, base);
            lemma_thompson_seq(*b, second);
            let la = thompson_seq(*a, base);
            let lb = thompson_seq(*b, second);
            vstd::seq_lib::seq_to_set_distributes_over_add(la, lb);
            let tail = seq![edge(fragment_end(*a, base), None, fragment_start(*b, second))];
            vstd::seq_lib::seq_to_set_distributes_over_add(la + lb, tail);
            assert(tail.to_set() =~= set![tail[0]]) by {
                assert(tail.to_set().contains(tail[0]));
            }
        },
        Expression::Alternate(a, b) => {
            let first = base + 2;
            let second = first + state_count(*a);
            lemma_thompson_seq(*a, first);
            lemma_thompson_seq(*b, second);
            let la = thompson_seq(*a, first);
            let lb = thompson_seq(*b, second);
            vstd::seq_lib::seq_to_set_distributes_over_add(la, lb);
            let tail = seq![
                edge(base, None, fragment_start(*a, first)),
                edge(base, None, fragment_start(*b, second)),
                edge(fragment_end(*a, first), None, base + 1),
                edge(fragment_end(*b, second), None, base + 1),
            ];
            vstd::seq_lib::seq_to_set_distributes_over_add(la + lb, tail);
            assert(tail.to_set() =~= set![tail[0], tail[1], tail[2], tail[3]]) by {
                assert(tail.to_set().contains(tail[0]));
                assert(tail.to_set().contains(tail[1]));
                assert(tail.to_set().contains(tail[2]));
                assert(tail.to_set().contains(tail[3]));
            }
            assert(listed.to_set() =~= thompson(e, base));
        },
        Expression::Star(a) => {
            let inner = base + 2;
            lemma_thompson_seq(*a, inner);
            let la = thompson_seq(*a, inner);
            let tail = seq![
                edge(base, None, base + 1),
                edge(base, None, fragment_start(*a, inner)),
                edge(fragment_end(*a, inner), None, base + 1),
                edge(fragment_end(*a, inner), None, fragment_start(*a, inner)),
            ];
            vstd::seq_lib::seq_to_set_distributes_over_add(la, tail);
            assert(tail.to_set() =~= set![tail[0], tail[1], tail[2], tail[3]]) by {
                assert(tail.to_set().contains(tail[0]));
                assert(tail.to_set().contains(tail[1]));
                assert(tail.to_set().contains(tail[2]));
                assert(tail.to_set().contains(tail[3]));
            }
            assert(listed.to_set() =~= thompson(e, base));
        },
    }
}

/// No transition of the automaton of `e` leaves its accepting state.
pub proof fn lemma_exit_is_final(e: Expression, base: int)
    requires
        0 <= base,
        base + state_count(e) <= usize::MAX,
    ensures
        forall|t: Edge| #[trigger] thompson(e, base).contains(t) ==> t.0 != fragment_end(e, base),
    decreases e,
{
    lemma_thompson_bounds(e, base);
    match e {
        Expression::Epsilon => {},
        Expression::Literal(_) => {},
        Expression::Concat(a, b) => {
            let second = base + state_count(*a);
            lemma_thompson_bounds(*a, base);
            lemma_thompson_bounds(*b, second);
            lemma_exit_is_final(*b, second);
        },
        Expression::Alternate(a, b) => {
            let first = base + 2;
            let second = first + state_count(*a);
            lemma_thompson_bounds(*a, first);
            lemma_thompson_bounds(*b, second);
        },
        Expression::Star(a) => {
            lemma_thompson_bounds(*a, base + 2);
        },
    }
    assert forall|t: Edge| #[trigger] thompson(e, base).contains(t) implies t.0 != fragment_end(
        e,
        base,
    ) by {
        match e {
            Expression::Epsilon => {},
            Expression::Literal(_) => {},
            Expression::Concat(a, b) => {
                let second = base + state_count(*a);
                if thompson(*a, base).contains(t) {
                } else if thompson(*b, second).contains(t) {
                }
            },
            Expression::Alternate(a, b) => {
                let first = base + 2;
                let second = first + state_count(*a);
                if thompson(*a, first).contains(t) {
                } else if thompson(*b, second).contains(t) {
                }
            },
            Expression::Star(a) => {
                if thompson(*a, base + 2).contains(t) {
                }
            },
        }
    }
}

/// An automaton under construction: the transitions so far, each listed
/// once, and the number of states so far.
#[derive(Debug)]
pub struct NfaBuilder {
    pub transitions: Vec<Edge>,
    pub state_counter: usize,
}

impl NfaBuilder {
    /// The set of transitions so far.
    pub open spec fn edges(&self) -> Set<Edge> {
        self.transitions@.to_set()
    }

    /// The representation invariant: no transition is listed twice.
    pub open spec fn wf(&self) -> bool {
        self.transitions@.no_duplicates()
    }

    /// Whether every transition runs between states made so far.
    pub open spec fn closed(&self) -> bool {
        forall|i: int|
            0 <= i < self.transitions@.len() ==> (#[trigger] self.transitions@[i]).0
                < self.state_counter && self.transitions@[i].2 < self.state_counter
    }

    /// A builder without states and transitions.
    pub fn new() -> (builder: Self)
        ensures
            builder.wf(),
            builder.state_counter == 0,
            builder.transitions@ == Seq::<Edge>::empty(),
            builder.edges() == Set::<Edge>::empty(),
    {
        let builder = NfaBuilder { transitions: Vec::new(), state_counter: 0 };
        assert(builder.edges() =~= Set::<Edge>::empty());
        builder
    }

    /// Makes a new state and returns its index.
    pub fn new_state(&mut self) -> (state: usize)
        requires
            old(self).state_counter < usize::MAX,
        ensures
            state == old(self).state_counter,
            final(self).state_counter == old(self).state_counter + 1,
            final(self).transitions == old(self).transitions,
    {
        let state = self.state_counter;
        self.state_counter += 1;
        state
    }

    /// Adds the transition from `from` to `to` on `on`, unless it is there.
    pub fn add_transition(&mut self, from: usize, to: usize, on: Option<char>)
        requires
            old(self).wf(),
        ensures
            final(self).wf(),
            final(self).state_counter == old(self).state_counter,
            final(self).edges() == old(self).edges().insert((from, on, to)),
            final(self).transitions@ == add_edge(old(self).transitions@, (from, on, to)),
    {
        let mut i: usize = 0;
        while i < self.transitions.len()
            invariant
                i <= self.transitions@.len(),
                old(self).wf(),
                self.transitions == old(self).transitions,
                self.state_counter == old(self).state_counter,
                forall|k: int| 0 <= k < i ==> self.transitions@[k] != (from, on, to),
            decreases self.transitions@.len() - i,
        {
            let (f, o, t) = self.transitions[i];
            let same_symbol = match (o, on) {
                (Some(x), Some(y)) => x == y,
                (None, None) => true,
                _ => false,
            };
            if f == from && t == to && same_symbol {
                proof {
                    assert(self.transitions@[i as int] == (from, on, to));
                    assert(self.edges().contains((from, on, to)));
                    assert(self.edges().insert((from, on, to)) =~= self.edges());
                    assert(self.transitions@.contains((from, on, to)));
                }
                return ;
            }
            i = i + 1;
        }
        let ghost before = self.transitions@;
        self.transitions.push((from, on, to));
        proof {
            if before.to_set().contains((from, on, to)) {
                let k = choose|k: int| 0 <= k < before.len() && before[k] == (from, on, to);
            }
            before.lemma_push_to_set_commute((from, on, to));
            assert(self.transitions@ =~= before.push((from, on, to)));
            assert forall|x: int, y: int|
                0 <= x < self.transitions@.len() && 0 <= y < self.transitions@.len() && x
                    != y implies self.transitions@[x] != self.transitions@[y] by {
                if x < before.len() && y < before.len() {
                    assert(before[x] != before[y]);
                }
            }
        }
    }
}

/// Counts the states that the construction makes for `expr`, unless they
/// are more than the machine can number.
pub fn count_states(expr: &Expression) -> (count: Option<usize>)
    ensures
        match count {
            Some(n) => n == state_count(*expr),
            None => state_count(*expr) > usize::MAX,
        },
    decreases expr,
{
    match expr {
        Expression::Epsilon => Some(2),
        Expression::Literal(_) => Some(2),
        Expression::Concat(a, b) => {
            match (count_states(a), count_states(b)) {
                (Some(x), Some(y)) => x.checked_add(y),
                _ => None,
            }
        },
        Expression::Alternate(a, b) => {
            match (count_states(a), count_states(b)) {
                (Some(x), Some(y)) => match x.checked_add(y) {
                    Some(z) => z.checked_add(2),
                    None => None,
                },
                _ => None,
            }
        },
        Expression::Star(a) => {
            match count_states(a) {
                Some(x) => x.checked_add(2),
                None => None,
            }
        },
    }
}

/// Builds the automaton of `expr` into `builder` by Thompson's construction
/// and returns its start state and its accepting state.
#[verifier::rlimit(40)]
pub fn expr_to_nfa(expr: &Expression, builder: &mut NfaBuilder) -> (ends: (usize, usize))
    requires
        old(builder).wf(),
        old(builder).closed(),
        old(builder).state_counter + state_count(*expr) <= usize::MAX,
    ensures
        final(builder).wf(),
        final(builder).closed(),
        final(builder).state_counter == old(builder).state_counter + state_count(*expr),
        final(builder).transitions@ == old(builder).transitions@ + thompson_seq(
            *expr,
            old(builder).state_counter as int,
        ),
        final(builder).edges() == old(builder).edges().union(
            thompson(*expr, old(builder).state_counter as int),
        ),
        ends.0 == fragment_start(*expr, old(builder).state_counter as int),
        ends.1 == fragment_end(*expr, old(builder).state_counter as int),
    decreases expr,
{
    let ghost base = builder.state_counter as int;
    let ghost before = builder.edges();
    let ghost listed = builder.transitions@;
    proof {
        lemma_thompson_bounds(*expr, base);
        lemma_thompson_seq(*expr, base);
        assert forall|t: Edge| #[trigger] before.contains(t) implies t.0 < base && t.2 < base by {
            let k = choose|k: int| 0 <= k < listed.len() && listed[k] == t;
            assert(listed[k].0 < base);
        }
    }
    let ends = match expr {
        Expression::Epsilon => {
            let start = builder.new_state();
            let end = builder.new_state();
            proof {
                assert(!before.contains((start, None::<char>, end)));
            }
            builder.add_transition(start, end, None);
            proof {
                assert(builder.edges() =~= before.union(thompson(*expr, base)));
                assert(builder.transitions@ =~= listed + thompson_seq(*expr, base));
            }
            (start, end)
        },
        Expression::Literal(c) => {
            let start = builder.new_state();
            let end = builder.new_state();
            proof {
                assert(!before.contains((start, Some(*c), end)));
            }
            builder.add_transition(start, end, Some(*c));
            proof {
                assert(builder.edges() =~= before.union(thompson(*expr, base)));
                assert(builder.transitions@ =~= listed + thompson_seq(*expr, base));
            }
            (start, end)
        },
        Expression::Concat(left, right) => {
            let ghost second = base + state_count(**left);
            proof {
                lemma_thompson_bounds(**left, base);
                lemma_thompson_bounds(**right, second);
            }
            let (left_start, left_end) = expr_to_nfa(left, builder);
            let (right_start, right_end) = expr_to_nfa(right, builder);
            proof {
                let link = (left_end, None::<char>, right_start);
                assert(!before.contains(link));
                assert(!thompson(**left, base).contains(link));
                assert(!thompson(**right, second).contains(link));
                assert(!builder.edges().contains(link));
            }
            builder.add_transition(left_end, right_start, None);
            proof {
                assert(builder.edges() =~= before.union(thompson(*expr, base)));
                assert(builder.transitions@ =~= listed + thompson_seq(*expr, base));
            }
            (left_start, right_end)
        },
        Expression::Alternate(left, right) => {
            let ghost first = base + 2;
            let ghost second = first + state_count(**left);
            proof {
                lemma_thompson_bounds(**left, first);
                lemma_thompson_bounds(**right, second);
            }
            let start = builder.new_state();
            let end = builder.new_state();
            let (left_start, left_end) = expr_to_nfa(left, builder);
            let (right_start, right_end) = expr_to_nfa(right, builder);
            let ghost inner = builder.edges();
            proof {
                assert(inner =~= before.union(thompson(**left, first)).union(
                    thompson(**right, second),
                ));
                assert(!inner.contains((start, None::<char>, left_start)));
            }
            builder.add_transition(start, left_start, None);
            proof {
                assert(!builder.edges().contains((start, None::<char>, right_start)));
            }
            builder.add_transition(start, right_start, None);
            proof {
                assert(!builder.edges().contains((left_end, None::<char>, end)));
            }
            builder.add_transition(left_end, end, None);
            proof {
                assert(!builder.edges().contains((right_end, None::<char>, end)));
            }
            builder.add_transition(right_end, end, None);
            proof {
                assert(builder.edges() =~= before.union(thompson(*expr, base)));
                assert(builder.transitions@ =~= listed + thompson_seq(*expr, base));
            }
            (start, end)
        },
        Expression::Star(operand) => {
            let ghost first = base + 2;
            proof {
                lemma_thompson_bounds(**operand, first);
                lemma_exit_is_final(**operand, first);
            }
            let start = builder.new_state();
            let end = builder.new_state();
            let (inner_start, inner_end) = expr_to_nfa(operand, builder);
            let ghost inner = builder.edges();
            proof {
                assert(inner =~= before.union(thompson(**operand, first)));
                assert(!inner.contains((start, None::<char>, end)));
            }
            builder.add_transition(start, end, None);
            proof {
                assert(!builder.edges().contains((start, None::<char>, inner_start)));
            }
            builder.add_transition(start, inner_start, None);
            proof {
                assert(!builder.edges().contains((inner_end, None::<char>, end)));
            }
            builder.add_transition(inner_end, end, None);
            proof {
                let back = (inner_end, None::<char>, inner_start);
                assert(!before.contains(back));
                assert(!thompson(**operand, first).contains(back));
                assert(!builder.edges().contains(back));
            }
            builder.add_transition(inner_end, inner_start, None);
            proof {
                assert(builder.edges() =~= before.union(thompson(*expr, base)));
                assert(builder.transitions@ =~= listed + thompson_seq(*expr, base));
            }
            (start, end)
        },
    };
    proof {
        lemma_stays_closed(listed, *expr, base);
    }
    ends
}

/// Transitions between the states below `base`, followed by those of the
/// automaton of `e` numbered from `base`, run between the states below the
/// end of that automaton.
proof fn lemma_stays_closed(listed: Seq<Edge>, e: Expression, base: int)
    requires
        0 <= base,
        base + state_count(e) <= usize::MAX,
        forall|i: int|
            0 <= i < listed.len() ==> (#[trigger] listed[i]).0 < base && listed[i].2 < base,
    ensures
        forall|i: int|
            0 <= i < (listed + thompson_seq(e, base)).len() ==> (#[trigger] (listed + thompson_seq(
                e,
                base,
            ))[i]).0 < base + state_count(e) && (listed + thompson_seq(e, base))[i].2 < base
                + state_count(e),
{
    let more = thompson_seq(e, base);
    let all = listed + more;
    lemma_thompson_bounds(e, base);
    lemma_thompson_seq(e, base);
    assert forall|i: int| 0 <= i < all.len() implies (#[trigger] all[i]).0 < base + state_count(e)
        && all[i].2 < base + state_count(e) by {
        if i < listed.len() {
            assert(all[i] == listed[i]);
        } else {
            assert(all[i] == more[i - listed.len()]);
            assert(more.to_set().contains(more[i - listed.len()]));
            assert(thompson(e, base).contains(all[i]));
        }
    }
}

} // verus!
