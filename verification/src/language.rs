//! What expressions and automata mean: the inputs that an expression
//! denotes, the runs of a nondeterministic automaton, and the proof that
//! Thompson's construction, and with it the whole pipeline from a pattern
//! to a table, accepts exactly what the expression denotes.

use crate::nfa::{eps_closure, eps_path, eps_reach, move_on, states_after, Edge};
use crate::regex_parser::Expression;
use crate::thompson::{
    edge, fragment_end, fragment_start, lemma_thompson_bounds, state_count, thompson,
};
use vstd::prelude::*;

verus! {

/// Every number counts pieces.
pub open spec fn counts(n: nat) -> bool {
    true
}

/// Whether `w` is made of `n` pieces in a row, each denoted by `e`.
pub open spec fn repeats(e: Expression, w: Seq<char>, n: nat) -> bool
    decreases e, n + 1,
{
    if n == 0 {
        w.len() == 0
    } else {
        exists|k: int|
            0 <= k <= w.len() && repeats(e, #[trigger] w.take(k), (n - 1) as nat) && denotes(
                e,
                w.skip(k),
            )
    }
}

/// Whether the expression `e` denotes the input `w`.
pub open spec fn denotes(e: Expression, w: Seq<char>) -> bool
    decreases e, 0nat,
{
    match e {
        Expression::Epsilon => w.len() == 0,
        Expression::Literal(c) => w == seq![c],
        Expression::Concat(a, b) => exists|k: int|
            0 <= k <= w.len() && denotes(*a, #[trigger] w.take(k)) && denotes(*b, w.skip(k)),
        Expression::Alternate(a, b) => denotes(*a, w) || denotes(*b, w),
        Expression::Star(a) => exists|n: nat| #[trigger] counts(n) && repeats(*a, w, n),
    }
}

/// Whether a transition on `on` can end the reading of `w`: an epsilon move
/// always, a transition on a character after that character.
pub open spec fn fits(w: Seq<char>, on: Option<char>) -> bool {
    match on {
        None => true,
        Some(c) => w.len() > 0 && w.last() == c,
    }
}

/// What has been read before a last transition on `on` ends the reading of
/// `w`.
pub open spec fn before(w: Seq<char>, on: Option<char>) -> Seq<char> {
    match on {
        None => w,
        Some(_) => w.drop_last(),
    }
}

/// Whether the automaton with the transitions `g` can go from `p` to `q` by
/// exactly `n` transitions that read `w`.
pub open spec fn reach_in(g: Set<Edge>, p: usize, w: Seq<char>, q: usize, n: nat) -> bool
    decreases n,
{
    if n == 0 {
        p == q && w.len() == 0
    } else {
        exists|mid: usize, on: Option<char>| #[trigger]
            g.contains((mid, on, q)) && fits(w, on) && reach_in(
                g,
                p,
                before(w, on),
                mid,
                (n - 1) as nat,
            )
    }
}

/// Whether the automaton with the transitions `g` can go from `p` to `q`
/// reading `w`.
pub open spec fn reach(g: Set<Edge>, p: usize, w: Seq<char>, q: usize) -> bool {
    exists|n: nat| reach_in(g, p, w, q, n)
}

/// A run goes on by one more transition.
pub proof fn lemma_reach_extend(
    g: Set<Edge>,
    p: usize,
    w: Seq<char>,
    mid: usize,
    on: Option<char>,
    q: usize,
)
    requires
        g.contains((mid, on, q)),
        fits(w, on),
        reach(g, p, before(w, on), mid),
    ensures
        reach(g, p, w, q),
{
    let n = choose|n: nat| reach_in(g, p, before(w, on), mid, n);
    assert(reach_in(g, p, before(w, on), mid, ((n + 1) - 1) as nat));
    assert(reach_in(g, p, w, q, n + 1));
}

/// A state is reached from itself reading nothing.
pub proof fn lemma_reach_self(g: Set<Edge>, p: usize)
    ensures
        reach(g, p, Seq::<char>::empty(), p),
{
    assert(reach_in(g, p, Seq::<char>::empty(), p, 0));
}

/// A run of an automaton is a run of any automaton with more transitions.
pub proof fn lemma_reach_in_mono(
    g: Set<Edge>,
    h: Set<Edge>,
    p: usize,
    w: Seq<char>,
    q: usize,
    n: nat,
)
    requires
        g.subset_of(h),
        reach_in(g, p, w, q, n),
    ensures
        reach_in(h, p, w, q, n),
    decreases n,
{
    if n > 0 {
        let (mid, on) = choose|mid: usize, on: Option<char>| #[trigger]
            g.contains((mid, on, q)) && fits(w, on) && reach_in(
                g,
                p,
                before(w, on),
                mid,
                (n - 1) as nat,
            );
        lemma_reach_in_mono(g, h, p, before(w, on), mid, (n - 1) as nat);
        assert(h.contains((mid, on, q)));
    }
}

/// A run of an automaton is a run of any automaton with more transitions.
pub proof fn lemma_reach_mono(g: Set<Edge>, h: Set<Edge>, p: usize, w: Seq<char>, q: usize)
    requires
        g.subset_of(h),
        reach(g, p, w, q),
    ensures
        reach(h, p, w, q),
{
    let n = choose|n: nat| reach_in(g, p, w, q, n);
    lemma_reach_in_mono(g, h, p, w, q, n);
}

/// Two runs, the second from where the first ends, make one run.
pub proof fn lemma_reach_in_concat(
    g: Set<Edge>,
    p: usize,
    u: Seq<char>,
    q: usize,
    v: Seq<char>,
    r: usize,
    n: nat,
)
    requires
        reach(g, p, u, q),
        reach_in(g, q, v, r, n),
    ensures
        reach(g, p, u + v, r),
    decreases n,
{
    if n == 0 {
        assert(u + v =~= u);
    } else {
        let (mid, on) = choose|mid: usize, on: Option<char>| #[trigger]
            g.contains((mid, on, r)) && fits(v, on) && reach_in(
                g,
                q,
                before(v, on),
                mid,
                (n - 1) as nat,
            );
        lemma_reach_in_concat(g, p, u, q, before(v, on), mid, (n - 1) as nat);
        assert(before(u + v, on) =~= u + before(v, on));
        lemma_reach_extend(g, p, u + v, mid, on, r);
    }
}

/// Two runs, the second from where the first ends, make one run.
pub proof fn lemma_reach_concat(
    g: Set<Edge>,
    p: usize,
    u: Seq<char>,
    q: usize,
    v: Seq<char>,
    r: usize,
)
    requires
        reach(g, p, u, q),
        reach(g, q, v, r),
    ensures
        reach(g, p, u + v, r),
{
    let n = choose|n: nat| reach_in(g, q, v, r, n);
    lemma_reach_in_concat(g, p, u, q, v, r, n);
}

/// Runs that read nothing are paths of epsilon moves, and the other way
/// round.
pub proof fn lemma_silent_run(g: Set<Edge>, p: usize, q: usize, n: nat)
    ensures
        eps_path(g, p, q, n) ==> reach_in(g, p, Seq::<char>::empty(), q, n),
        reach_in(g, p, Seq::<char>::empty(), q, n) ==> eps_path(g, p, q, n),
    decreases n,
{
    let nothing = Seq::<char>::empty();
    if n > 0 {
        if eps_path(g, p, q, n) {
            let mid = choose|mid: usize|
                eps_path(g, p, mid, (n - 1) as nat) && #[trigger] g.contains(
                    (mid, None::<char>, q),
                );
            lemma_silent_run(g, p, mid, (n - 1) as nat);
            assert(g.contains((mid, None::<char>, q)) && fits(nothing, None::<char>) && reach_in(
                g,
                p,
                before(nothing, None::<char>),
                mid,
                (n - 1) as nat,
            ));
        }
        if reach_in(g, p, nothing, q, n) {
            let (mid, on) = choose|mid: usize, on: Option<char>| #[trigger]
                g.contains((mid, on, q)) && fits(nothing, on) && reach_in(
                    g,
                    p,
                    before(nothing, on),
                    mid,
                    (n - 1) as nat,
                );
            assert(on is None);
            lemma_silent_run(g, p, mid, (n - 1) as nat);
        }
    }
}

/// The closure of a set of states is closed under epsilon moves.
pub proof fn lemma_closure_closed(g: Set<Edge>, states: Set<usize>, mid: usize, q: usize)
    requires
        eps_closure(g, states).contains(mid),
        g.contains((mid, None::<char>, q)),
    ensures
        eps_closure(g, states).contains(q),
{
    let p = choose|p: usize| states.contains(p) && eps_reach(g, p, mid);
    crate::nfa::lemma_eps_reach_step(g, p, mid, q);
}

/// The states in which the automaton may be after reading `w` from `p` are
/// closed under epsilon moves.
pub proof fn lemma_after_closed(g: Set<Edge>, p: usize, w: Seq<char>, mid: usize, q: usize)
    requires
        states_after(g, eps_closure(g, set![p]), w).contains(mid),
        g.contains((mid, None::<char>, q)),
    ensures
        states_after(g, eps_closure(g, set![p]), w).contains(q),
{
    if w.len() == 0 {
        lemma_closure_closed(g, set![p], mid, q);
    } else {
        let moved = move_on(g, states_after(g, eps_closure(g, set![p]), w.drop_last()), w.last());
        lemma_closure_closed(g, moved, mid, q);
    }
}

/// Every run from `p` that reads `w` ends in a state in which the
/// automaton may be after reading `w`.
pub proof fn lemma_run_is_tracked(g: Set<Edge>, p: usize, w: Seq<char>, q: usize, n: nat)
    requires
        reach_in(g, p, w, q, n),
    ensures
        states_after(g, eps_closure(g, set![p]), w).contains(q),
    decreases n,
{
    let initial = eps_closure(g, set![p]);
    if n == 0 {
        assert(eps_path(g, p, p, 0));
        assert(set![p].contains(p));
        assert(eps_reach(g, p, p));
    } else {
        let (mid, on) = choose|mid: usize, on: Option<char>| #[trigger]
            g.contains((mid, on, q)) && fits(w, on) && reach_in(
                g,
                p,
                before(w, on),
                mid,
                (n - 1) as nat,
            );
        lemma_run_is_tracked(g, p, before(w, on), mid, (n - 1) as nat);
        match on {
            None => {
                lemma_after_closed(g, p, w, mid, q);
            },
            Some(c) => {
                let earlier = states_after(g, initial, w.drop_last());
                let moved = move_on(g, earlier, c);
                assert(earlier.contains(mid) && g.contains((mid, Some(c), q)));
                assert(moved.contains(q));
                assert(eps_path(g, q, q, 0));
                assert(eps_reach(g, q, q));
                assert(eps_closure(g, moved).contains(q));
            },
        }
    }
}

/// A run goes on along a path of epsilon moves.
pub proof fn lemma_run_then_silent(
    g: Set<Edge>,
    p: usize,
    w: Seq<char>,
    r: usize,
    q: usize,
    n: nat,
)
    requires
        reach(g, p, w, r),
        eps_path(g, r, q, n),
    ensures
        reach(g, p, w, q),
{
    lemma_silent_run(g, r, q, n);
    lemma_reach_in_concat(g, p, w, r, Seq::<char>::empty(), q, n);
    assert(w + Seq::<char>::empty() =~= w);
}

/// Every state in which the automaton may be after reading `w` from `p` is
/// the end of a run from `p` that reads `w`.
pub proof fn lemma_tracked_is_run(g: Set<Edge>, p: usize, w: Seq<char>, q: usize)
    requires
        states_after(g, eps_closure(g, set![p]), w).contains(q),
    ensures
        reach(g, p, w, q),
    decreases w.len(),
{
    let initial = eps_closure(g, set![p]);
    if w.len() == 0 {
        let origin = choose|origin: usize| set![p].contains(origin) && eps_reach(g, origin, q);
        let n = choose|n: nat| eps_path(g, p, q, n);
        lemma_silent_run(g, p, q, n);
        assert(w =~= Seq::<char>::empty());
    } else {
        let c = w.last();
        let earlier = states_after(g, initial, w.drop_last());
        let moved = move_on(g, earlier, c);
        let r = choose|r: usize| moved.contains(r) && eps_reach(g, r, q);
        let mid = choose|mid: usize| earlier.contains(mid) && g.contains((mid, Some(c), r));
        lemma_tracked_is_run(g, p, w.drop_last(), mid);
        lemma_reach_extend(g, p, w, mid, Some(c), r);
        let n = choose|n: nat| eps_path(g, r, q, n);
        lemma_run_then_silent(g, p, w, r, q, n);
    }
}

/// The states in which a nondeterministic automaton may be after reading
/// `w` are the ends of its runs that read `w`.
pub proof fn lemma_tracked_states_are_runs(g: Set<Edge>, p: usize, w: Seq<char>, q: usize)
    ensures
        states_after(g, eps_closure(g, set![p]), w).contains(q) <==> reach(g, p, w, q),
{
    if states_after(g, eps_closure(g, set![p]), w).contains(q) {
        lemma_tracked_is_run(g, p, w, q);
    }
    if reach(g, p, w, q) {
        let n = choose|n: nat| reach_in(g, p, w, q, n);
        lemma_run_is_tracked(g, p, w, q, n);
    }
}

/// The start state of the automaton of `e` numbered from `base`.
pub open spec fn entry(e: Expression, base: int) -> usize {
    fragment_start(e, base) as usize
}

/// The accepting state of the automaton of `e` numbered from `base`.
pub open spec fn exit(e: Expression, base: int) -> usize {
    fragment_end(e, base) as usize
}

/// Whether `q` is a state of the automaton of `e` numbered from `base`.
pub open spec fn inside(q: usize, e: Expression, base: int) -> bool {
    base <= q < base + state_count(e)
}

/// Whether the automaton of `e` numbered from `base` fits the machine.
pub open spec fn fits_machine(e: Expression, base: int) -> bool {
    0 <= base && base + state_count(e) <= usize::MAX
}

/// Where a run of the automaton of the empty expression can be.
proof fn lemma_runs_of_epsilon(base: int, w: Seq<char>, q: usize, n: nat)
    requires
        fits_machine(Expression::Epsilon, base),
        reach_in(thompson(Expression::Epsilon, base), base as usize, w, q, n),
    ensures
        w.len() == 0,
        q == base || q == base + 1,
    decreases n,
{
    let g = thompson(Expression::Epsilon, base);
    if n > 0 {
        let (mid, on) = choose|mid: usize, on: Option<char>| #[trigger]
            g.contains((mid, on, q)) && fits(w, on) && reach_in(
                g,
                base as usize,
                before(w, on),
                mid,
                (n - 1) as nat,
            );
        lemma_runs_of_epsilon(base, before(w, on), mid, (n - 1) as nat);
    }
}

/// Where a run of the automaton of a literal can be.
proof fn lemma_runs_of_literal(c: char, base: int, w: Seq<char>, q: usize, n: nat)
    requires
        fits_machine(Expression::Literal(c), base),
        reach_in(thompson(Expression::Literal(c), base), base as usize, w, q, n),
    ensures
        (q == base && w.len() == 0) || (q == base + 1 && w == seq![c]),
    decreases n,
{
    let g = thompson(Expression::Literal(c), base);
    if n > 0 {
        let (mid, on) = choose|mid: usize, on: Option<char>| #[trigger]
            g.contains((mid, on, q)) && fits(w, on) && reach_in(
                g,
                base as usize,
                before(w, on),
                mid,
                (n - 1) as nat,
            );
        lemma_runs_of_literal(c, base, before(w, on), mid, (n - 1) as nat);
        assert(w =~= seq![c]);
    }
}

/// Whether `w` is read in two parts, the first by a run through the
/// automaton of `a` and the second by a run from the start of the automaton
/// of `b` to `q`.
pub open spec fn splits_at(
    a: Expression,
    b: Expression,
    base: int,
    w: Seq<char>,
    q: usize,
    k: int,
) -> bool {
    let second = base + state_count(a);
    &&& 0 <= k <= w.len()
    &&& reach(thompson(a, base), entry(a, base), w.take(k), exit(a, base))
    &&& reach(thompson(b, second), entry(b, second), w.skip(k), q)
}

/// Where a run of the automaton of a concatenation can be: in the automaton
/// of the first operand, or past it in the automaton of the second.
pub open spec fn run_of_concat(a: Expression, b: Expression, base: int, w: Seq<char>, q: usize) -> bool {
    let second = base + state_count(a);
    ||| inside(q, a, base) && reach(thompson(a, base), entry(a, base), w, q)
    ||| inside(q, b, second) && exists|k: int| #[trigger] splits_at(a, b, base, w, q, k)
}

/// Every run of the automaton of a concatenation from its start is of one
/// of the two kinds.
#[verifier::rlimit(60)]
proof fn lemma_runs_of_concat(
    a: Expression,
    b: Expression,
    base: int,
    w: Seq<char>,
    q: usize,
    n: nat,
)
    requires
        fits_machine(Expression::Concat(Box::new(a), Box::new(b)), base),
        reach_in(
            thompson(Expression::Concat(Box::new(a), Box::new(b)), base),
            entry(a, base),
            w,
            q,
            n,
        ),
    ensures
        run_of_concat(a, b, base, w, q),
    decreases n,
{
    let e = Expression::Concat(Box::new(a), Box::new(b));
    let g = thompson(e, base);
    let second = base + state_count(a);
    let ga = thompson(a, base);
    let gb = thompson(b, second);
    lemma_thompson_bounds(a, base);
    lemma_thompson_bounds(b, second);
    if n == 0 {
        lemma_reach_self(ga, entry(a, base));
        assert(w =~= Seq::<char>::empty());
    } else {
        let (mid, on) = choose|mid: usize, on: Option<char>| #[trigger]
            g.contains((mid, on, q)) && fits(w, on) && reach_in(
                g,
                entry(a, base),
                before(w, on),
                mid,
                (n - 1) as nat,
            );
        let earlier = before(w, on);
        lemma_runs_of_concat(a, b, base, earlier, mid, (n - 1) as nat);
        if ga.contains((mid, on, q)) {
            lemma_reach_extend(ga, entry(a, base), w, mid, on, q);
        } else if gb.contains((mid, on, q)) {
            let k = choose|k: int| #[trigger] splits_at(a, b, base, earlier, mid, k);
            assert(w.take(k) =~= earlier.take(k));
            assert(before(w.skip(k), on) =~= earlier.skip(k));
            lemma_reach_extend(gb, entry(b, second), w.skip(k), mid, on, q);
            assert(splits_at(a, b, base, w, q, k));
        } else {
            assert((mid, on, q) == edge(fragment_end(a, base), None, fragment_start(b, second)));
            let k = w.len() as int;
            assert(w.take(k) =~= w);
            assert(w.skip(k) =~= Seq::<char>::empty());
            lemma_reach_self(gb, entry(b, second));
            assert(splits_at(a, b, base, w, q, k));
        }
    }
}

/// Where a run of the automaton of an alternation can be: at its start, in
/// the automaton of one of the operands, or at its end past one of them.
pub open spec fn run_of_alternate(
    a: Expression,
    b: Expression,
    base: int,
    w: Seq<char>,
    q: usize,
) -> bool {
    let first = base + 2;
    let second = first + state_count(a);
    ||| q == base && w.len() == 0
    ||| inside(q, a, first) && reach(thompson(a, first), entry(a, first), w, q)
    ||| inside(q, b, second) && reach(thompson(b, second), entry(b, second), w, q)
    ||| q == base + 1 && (reach(thompson(a, first), entry(a, first), w, exit(a, first)) || reach(
        thompson(b, second),
        entry(b, second),
        w,
        exit(b, second),
    ))
}

/// Every run of the automaton of an alternation from its start is of one of
/// the four kinds.
#[verifier::rlimit(60)]
proof fn lemma_runs_of_alternate(
    a: Expression,
    b: Expression,
    base: int,
    w: Seq<char>,
    q: usize,
    n: nat,
)
    requires
        fits_machine(Expression::Alternate(Box::new(a), Box::new(b)), base),
        reach_in(
            thompson(Expression::Alternate(Box::new(a), Box::new(b)), base),
            base as usize,
            w,
            q,
            n,
        ),
    ensures
        run_of_alternate(a, b, base, w, q),
    decreases n,
{
    let e = Expression::Alternate(Box::new(a), Box::new(b));
    let g = thompson(e, base);
    let first = base + 2;
    let second = first + state_count(a);
    let ga = thompson(a, first);
    let gb = thompson(b, second);
    lemma_thompson_bounds(a, first);
    lemma_thompson_bounds(b, second);
    if n > 0 {
        let (mid, on) = choose|mid: usize, on: Option<char>| #[trigger]
            g.contains((mid, on, q)) && fits(w, on) && reach_in(
                g,
                base as usize,
                before(w, on),
                mid,
                (n - 1) as nat,
            );
        let earlier = before(w, on);
        lemma_runs_of_alternate(a, b, base, earlier, mid, (n - 1) as nat);
        if ga.contains((mid, on, q)) {
            lemma_reach_extend(ga, entry(a, first), w, mid, on, q);
        } else if gb.contains((mid, on, q)) {
            lemma_reach_extend(gb, entry(b, second), w, mid, on, q);
        } else if (mid, on, q) == edge(base, None, fragment_start(a, first)) {
            lemma_reach_self(ga, entry(a, first));
            assert(w =~= Seq::<char>::empty());
        } else if (mid, on, q) == edge(base, None, fragment_start(b, second)) {
            lemma_reach_self(gb, entry(b, second));
            assert(w =~= Seq::<char>::empty());
        } else if (mid, on, q) == edge(fragment_end(a, first), None, base + 1) {
        } else {
            assert((mid, on, q) == edge(fragment_end(b, second), None, base + 1));
        }
    }
}

/// Whether `w` is read in two parts, the first made of `m` pieces that `a`
/// denotes and the second read by a run from the start of the automaton of
/// `a` to `q`.
pub open spec fn repeats_then(a: Expression, inner: int, w: Seq<char>, q: usize, k: int, m: nat) -> bool {
    &&& 0 <= k <= w.len()
    &&& repeats(a, w.take(k), m)
    &&& reach(thompson(a, inner), entry(a, inner), w.skip(k), q)
}

/// Where a run of the automaton of a repetition can be: at its start, in
/// the automaton of the operand after some pieces, or at its end after some
/// pieces.
pub open spec fn run_of_star(a: Expression, base: int, w: Seq<char>, q: usize) -> bool {
    let inner = base + 2;
    ||| q == base && w.len() == 0
    ||| inside(q, a, inner) && exists|k: int, m: nat| #[trigger] repeats_then(a, inner, w, q, k, m)
    ||| q == base + 1 && exists|m: nat| repeats(a, w, m)
}

/// More pieces after pieces are pieces.
proof fn lemma_one_more_piece(a: Expression, w: Seq<char>, k: int, m: nat)
    requires
        0 <= k <= w.len(),
        repeats(a, w.take(k), m),
        denotes(a, w.skip(k)),
    ensures
        repeats(a, w, m + 1),
{
    assert(0 <= k <= w.len() && repeats(a, w.take(k), ((m + 1) - 1) as nat) && denotes(
        a,
        w.skip(k),
    ));
}

/// The automaton of `e` numbered from `base` goes from its start to its
/// accepting state only on inputs that `e` denotes.
pub proof fn lemma_thompson_sound(e: Expression, base: int, w: Seq<char>)
    requires
        fits_machine(e, base),
        reach(thompson(e, base), entry(e, base), w, exit(e, base)),
    ensures
        denotes(e, w),
    decreases e, 0nat, 0nat,
{
    let g = thompson(e, base);
    let n = choose|n: nat| reach_in(g, entry(e, base), w, exit(e, base), n);
    lemma_thompson_bounds(e, base);
    match e {
        Expression::Epsilon => {
            lemma_runs_of_epsilon(base, w, exit(e, base), n);
            assert(denotes(e, w));
        },
        Expression::Literal(c) => {
            lemma_runs_of_literal(c, base, w, exit(e, base), n);
            assert(denotes(e, w));
        },
        Expression::Concat(a, b) => {
            let second = base + state_count(*a);
            lemma_thompson_bounds(*a, base);
            lemma_thompson_bounds(*b, second);
            lemma_runs_of_concat(*a, *b, base, w, exit(e, base), n);
            let k = choose|k: int| #[trigger] splits_at(*a, *b, base, w, exit(e, base), k);
            lemma_thompson_sound(*a, base, w.take(k));
            lemma_thompson_sound(*b, second, w.skip(k));
            assert(0 <= k <= w.len() && denotes(*a, w.take(k)) && denotes(*b, w.skip(k)));
            assert(denotes(e, w));
        },
        Expression::Alternate(a, b) => {
            let first = base + 2;
            let second = first + state_count(*a);
            lemma_thompson_bounds(*a, first);
            lemma_thompson_bounds(*b, second);
            lemma_runs_of_alternate(*a, *b, base, w, exit(e, base), n);
            if reach(thompson(*a, first), entry(*a, first), w, exit(*a, first)) {
                lemma_thompson_sound(*a, first, w);
            } else {
                lemma_thompson_sound(*b, second, w);
            }
            assert(denotes(e, w));
        },
        Expression::Star(a) => {
            lemma_thompson_bounds(*a, base + 2);
            lemma_runs_of_star(*a, base, w, exit(e, base), n);
            let m = choose|m: nat| repeats(*a, w, m);
            assert(counts(m) && repeats(*a, w, m));
            assert(denotes(e, w));
        },
    }
}

/// Every run of the automaton of a repetition from its start is of one of
/// the three kinds.
#[verifier::rlimit(60)]
proof fn lemma_runs_of_star(a: Expression, base: int, w: Seq<char>, q: usize, n: nat)
    requires
        fits_machine(Expression::Star(Box::new(a)), base),
        reach_in(thompson(Expression::Star(Box::new(a)), base), base as usize, w, q, n),
    ensures
        run_of_star(a, base, w, q),
    decreases a, 1nat, n,
{
    let e = Expression::Star(Box::new(a));
    let g = thompson(e, base);
    let inner = base + 2;
    let ga = thompson(a, inner);
    lemma_thompson_bounds(a, inner);
    if n > 0 {
        let (mid, on) = choose|mid: usize, on: Option<char>| #[trigger]
            g.contains((mid, on, q)) && fits(w, on) && reach_in(
                g,
                base as usize,
                before(w, on),
                mid,
                (n - 1) as nat,
            );
        let earlier = before(w, on);
        lemma_runs_of_star(a, base, earlier, mid, (n - 1) as nat);
        if ga.contains((mid, on, q)) {
            let (k, m) = choose|k: int, m: nat| #[trigger]
                repeats_then(a, inner, earlier, mid, k, m);
            assert(w.take(k) =~= earlier.take(k));
            assert(before(w.skip(k), on) =~= earlier.skip(k));
            lemma_reach_extend(ga, entry(a, inner), w.skip(k), mid, on, q);
            assert(repeats_then(a, inner, w, q, k, m));
        } else if (mid, on, q) == edge(base, None, base + 1) {
            assert(repeats(a, w, 0));
        } else if (mid, on, q) == edge(base, None, fragment_start(a, inner)) {
            lemma_reach_self(ga, entry(a, inner));
            assert(w.take(0) =~= Seq::<char>::empty());
            assert(w.skip(0) =~= Seq::<char>::empty());
            assert(repeats(a, w.take(0), 0));
            assert(repeats_then(a, inner, w, q, 0, 0));
        } else {
            let (k, m) = choose|k: int, m: nat| #[trigger]
                repeats_then(a, inner, earlier, mid, k, m);
            lemma_thompson_sound(a, inner, w.skip(k));
            lemma_one_more_piece(a, w, k, m);
            if (mid, on, q) == edge(fragment_end(a, inner), None, base + 1) {
            } else {
                assert((mid, on, q) == edge(
                    fragment_end(a, inner),
                    None,
                    fragment_start(a, inner),
                ));
                let all = w.len() as int;
                assert(w.take(all) =~= w);
                assert(w.skip(all) =~= Seq::<char>::empty());
                lemma_reach_self(ga, entry(a, inner));
                assert(repeats_then(a, inner, w, q, all, m + 1));
            }
        }
    }
}


/// The automaton of `e` numbered from `base` goes from its start to its
/// accepting state on every input that `e` denotes.
#[verifier::rlimit(60)]
pub proof fn lemma_thompson_complete(e: Expression, base: int, w: Seq<char>)
    requires
        fits_machine(e, base),
        denotes(e, w),
    ensures
        reach(thompson(e, base), entry(e, base), w, exit(e, base)),
    decreases e, 0nat, 0nat,
{
    let g = thompson(e, base);
    let nothing = Seq::<char>::empty();
    lemma_thompson_bounds(e, base);
    match e {
        Expression::Epsilon => {
            lemma_reach_self(g, base as usize);
            assert(w =~= nothing);
            lemma_reach_extend(g, base as usize, w, base as usize, None, (base + 1) as usize);
        },
        Expression::Literal(c) => {
            lemma_reach_self(g, base as usize);
            assert(before(w, Some(c)) =~= nothing);
            lemma_reach_extend(g, base as usize, w, base as usize, Some(c), (base + 1) as usize);
        },
        Expression::Concat(a, b) => {
            let second = base + state_count(*a);
            lemma_thompson_bounds(*a, base);
            lemma_thompson_bounds(*b, second);
            let k = choose|k: int|
                0 <= k <= w.len() && denotes(*a, #[trigger] w.take(k)) && denotes(
                    *b,
                    w.skip(k),
                );
            lemma_thompson_complete(*a, base, w.take(k));
            lemma_thompson_complete(*b, second, w.skip(k));
            lemma_reach_mono(thompson(*a, base), g, entry(*a, base), w.take(k), exit(*a, base));
            lemma_reach_mono(
                thompson(*b, second),
                g,
                entry(*b, second),
                w.skip(k),
                exit(*b, second),
            );
            lemma_reach_extend(
                g,
                entry(*a, base),
                w.take(k),
                exit(*a, base),
                None,
                entry(*b, second),
            );
            lemma_reach_concat(
                g,
                entry(*a, base),
                w.take(k),
                entry(*b, second),
                w.skip(k),
                exit(*b, second),
            );
            assert(w.take(k) + w.skip(k) =~= w);
        },
        Expression::Alternate(a, b) => {
            let first = base + 2;
            let second = first + state_count(*a);
            lemma_thompson_bounds(*a, first);
            lemma_thompson_bounds(*b, second);
            lemma_reach_self(g, base as usize);
            if denotes(*a, w) {
                lemma_thompson_complete(*a, first, w);
                lemma_reach_mono(thompson(*a, first), g, entry(*a, first), w, exit(*a, first));
                lemma_reach_extend(g, base as usize, nothing, base as usize, None, entry(*a, first));
                lemma_reach_concat(
                    g,
                    base as usize,
                    nothing,
                    entry(*a, first),
                    w,
                    exit(*a, first),
                );
                assert(nothing + w =~= w);
                lemma_reach_extend(g, base as usize, w, exit(*a, first), None, (base + 1) as usize);
            } else {
                lemma_thompson_complete(*b, second, w);
                lemma_reach_mono(
                    thompson(*b, second),
                    g,
                    entry(*b, second),
                    w,
                    exit(*b, second),
                );
                lemma_reach_extend(
                    g,
                    base as usize,
                    nothing,
                    base as usize,
                    None,
                    entry(*b, second),
                );
                lemma_reach_concat(
                    g,
                    base as usize,
                    nothing,
                    entry(*b, second),
                    w,
                    exit(*b, second),
                );
                assert(nothing + w =~= w);
                lemma_reach_extend(
                    g,
                    base as usize,
                    w,
                    exit(*b, second),
                    None,
                    (base + 1) as usize,
                );
            }
        },
        Expression::Star(a) => {
            let inner = base + 2;
            lemma_thompson_bounds(*a, inner);
            let n = choose|n: nat| #[trigger] counts(n) && repeats(*a, w, n);
            if n == 0 {
                lemma_reach_self(g, base as usize);
                assert(w =~= nothing);
                lemma_reach_extend(g, base as usize, w, base as usize, None, (base + 1) as usize);
            } else {
                lemma_pieces_run(*a, base, w, n);
                lemma_reach_extend(g, base as usize, w, exit(*a, inner), None, (base + 1) as usize);
            }
        },
    }
}

/// The automaton of a repetition goes from its start to the end of the
/// automaton of its operand on every input made of one or more pieces.
proof fn lemma_pieces_run(a: Expression, base: int, w: Seq<char>, n: nat)
    requires
        fits_machine(Expression::Star(Box::new(a)), base),
        n >= 1,
        repeats(a, w, n),
    ensures
        reach(
            thompson(Expression::Star(Box::new(a)), base),
            base as usize,
            w,
            exit(a, base + 2),
        ),
    decreases a, 1nat, n,
{
    let e = Expression::Star(Box::new(a));
    let g = thompson(e, base);
    let inner = base + 2;
    let nothing = Seq::<char>::empty();
    lemma_thompson_bounds(a, inner);
    let k = choose|k: int|
        0 <= k <= w.len() && repeats(a, #[trigger] w.take(k), (n - 1) as nat) && denotes(
            a,
            w.skip(k),
        );
    lemma_thompson_complete(a, inner, w.skip(k));
    lemma_reach_mono(thompson(a, inner), g, entry(a, inner), w.skip(k), exit(a, inner));
    if n == 1 {
        assert(w.take(k) =~= nothing);
        lemma_reach_self(g, base as usize);
        lemma_reach_extend(g, base as usize, nothing, base as usize, None, entry(a, inner));
    } else {
        lemma_pieces_run(a, base, w.take(k), (n - 1) as nat);
        lemma_reach_extend(g, base as usize, w.take(k), exit(a, inner), None, entry(a, inner));
    }
    lemma_reach_concat(g, base as usize, w.take(k), entry(a, inner), w.skip(k), exit(a, inner));
    assert(w.take(k) + w.skip(k) =~= w);
}

/// Thompson's construction is correct: the automaton of `e` goes from its
/// start to its accepting state on exactly the inputs that `e` denotes.
pub proof fn lemma_thompson_correct(e: Expression, base: int, w: Seq<char>)
    requires
        fits_machine(e, base),
    ensures
        reach(thompson(e, base), entry(e, base), w, exit(e, base)) <==> denotes(e, w),
{
    if denotes(e, w) {
        lemma_thompson_complete(e, base, w);
    }
    if reach(thompson(e, base), entry(e, base), w, exit(e, base)) {
        lemma_thompson_sound(e, base, w);
    }
}

/// Every character that a run reads fires a transition of the automaton.
pub proof fn lemma_run_reads_labels(g: Set<Edge>, p: usize, w: Seq<char>, q: usize, n: nat, i: int)
    requires
        reach_in(g, p, w, q, n),
        0 <= i < w.len(),
    ensures
        exists|from: usize, to: usize| g.contains((from, Some(w[i]), to)),
    decreases n,
{
    if n > 0 {
        let (mid, on) = choose|mid: usize, on: Option<char>| #[trigger]
            g.contains((mid, on, q)) && fits(w, on) && reach_in(
                g,
                p,
                before(w, on),
                mid,
                (n - 1) as nat,
            );
        if on is Some && i == w.len() - 1 {
            assert(g.contains((mid, Some(w[i]), q)));
        } else {
            assert(before(w, on)[i] == w[i]);
            lemma_run_reads_labels(g, p, before(w, on), mid, (n - 1) as nat, i);
        }
    }
}

/// Concatenation is associative in what it denotes.
pub proof fn lemma_concat_associative(a: Expression, b: Expression, c: Expression, w: Seq<char>)
    ensures
        denotes(crate::regex_parser::concat(crate::regex_parser::concat(a, b), c), w) <==> denotes(
            crate::regex_parser::concat(a, crate::regex_parser::concat(b, c)),
            w,
        ),
{
    let ab = crate::regex_parser::concat(a, b);
    let bc = crate::regex_parser::concat(b, c);
    let left = crate::regex_parser::concat(ab, c);
    let right = crate::regex_parser::concat(a, bc);
    if denotes(left, w) {
        let k = choose|k: int|
            0 <= k <= w.len() && denotes(ab, #[trigger] w.take(k)) && denotes(c, w.skip(k));
        let u = w.take(k);
        let j = choose|j: int|
            0 <= j <= u.len() && denotes(a, #[trigger] u.take(j)) && denotes(b, u.skip(j));
        let rest = w.skip(j);
        assert(w.take(j) =~= u.take(j));
        assert(rest.take(k - j) =~= u.skip(j));
        assert(rest.skip(k - j) =~= w.skip(k));
        assert(0 <= k - j <= rest.len() && denotes(b, rest.take(k - j)) && denotes(
            c,
            rest.skip(k - j),
        ));
        assert(denotes(bc, rest));
        assert(0 <= j <= w.len() && denotes(a, w.take(j)) && denotes(bc, w.skip(j)));
    }
    if denotes(right, w) {
        let j = choose|j: int|
            0 <= j <= w.len() && denotes(a, #[trigger] w.take(j)) && denotes(bc, w.skip(j));
        let rest = w.skip(j);
        let i = choose|i: int|
            0 <= i <= rest.len() && denotes(b, #[trigger] rest.take(i)) && denotes(
                c,
                rest.skip(i),
            );
        let k = j + i;
        let u = w.take(k);
        assert(u.take(j) =~= w.take(j));
        assert(u.skip(j) =~= rest.take(i));
        assert(w.skip(k) =~= rest.skip(i));
        assert(0 <= j <= u.len() && denotes(a, u.take(j)) && denotes(b, u.skip(j)));
        assert(denotes(ab, u));
        assert(0 <= k <= w.len() && denotes(ab, w.take(k)) && denotes(c, w.skip(k)));
    }
}

/// `e?` denotes what `e` denotes, and the empty input.
pub proof fn lemma_optional_denotes(e: Expression, w: Seq<char>)
    ensures
        denotes(crate::regex_parser::optional(e), w) <==> denotes(e, w) || w.len() == 0,
{
    assert(denotes(Expression::Epsilon, w) <==> w.len() == 0);
}

/// `e+` denotes the inputs made of one or more pieces that `e` denotes.
pub proof fn lemma_plus_denotes(e: Expression, w: Seq<char>)
    ensures
        denotes(crate::regex_parser::plus(e), w) <==> exists|k: int|
            0 <= k <= w.len() && denotes(e, #[trigger] w.take(k)) && denotes(
                crate::regex_parser::star(e),
                w.skip(k),
            ),
{
}


} // verus!
