//! The subset construction: from a nondeterministic automaton to a complete
//! deterministic one, with a dead state where a transition is missing.

use crate::charset::CharSet;
use crate::dfa::{lemma_cell_in_table, Dfa, StateInfo};
use crate::error::FsmError;
use crate::indexing::{
    is_indexing, key_pairs, keys_get_by_right, keys_insert, keys_new, lemma_indexing_insert,
    lemma_indexing_items, pairs_after_insert, symbol_index, symbol_pairs,
};
use crate::nfa::{
    eps_closure, lemma_closed_holds_closure, lemma_step_from_nothing, meets, move_on,
    states_after, step, Edge, Nfa,
};
use crate::stateset::StateSet;
use crate::text::{
    chars_of, comma_free, join, lemma_join_injective, push_joined, sort_texts, string_of,
    text_views, texts_ascending,
};
use vstd::prelude::*;

verus! {

/// The sets of states that the members of `subsets` hold.
pub open spec fn set_views(subsets: Seq<StateSet>) -> Seq<Set<usize>> {
    subsets.map_values(|s: StateSet| s@)
}

/// The rows of a table as sequences.
pub open spec fn row_views(rows: Seq<Vec<Option<usize>>>) -> Seq<Seq<Option<usize>>> {
    rows.map_values(|r: Vec<Option<usize>>| r@)
}

/// Whether `entry` records where subset `i` goes on the character of column
/// `a`: the index of the subset reached, or nothing where no state is
/// reached.
pub open spec fn entry_ok(
    edges: Set<Edge>,
    alphabet: Seq<char>,
    subsets: Seq<Set<usize>>,
    i: int,
    a: int,
    entry: Option<usize>,
) -> bool {
    let reached = step(edges, subsets[i], alphabet[a]);
    match entry {
        Some(j) => j < subsets.len() && subsets[j as int] == reached && reached != Set::<
            usize,
        >::empty(),
        None => reached == Set::<usize>::empty(),
    }
}

/// Whether cell `(i1, a1)` comes before cell `(i2, a2)` when the table is
/// read row by row.
pub open spec fn precedes(i1: int, a1: int, i2: int, a2: int) -> bool {
    i1 < i2 || (i1 == i2 && a1 < a2)
}

/// Whether every cell before `(i, a)` that holds a subset holds one with an
/// index below `k`.
pub open spec fn smaller_before(rows: Seq<Seq<Option<usize>>>, k: usize, i: int, a: int) -> bool {
    forall|i2: int, a2: int|
        0 <= i2 < rows.len() && 0 <= a2 < rows[i2].len() && precedes(i2, a2, i, a) ==> (
        #[trigger] rows[i2][a2] matches Some(j) ==> j < k)
}

/// Whether cell `(i, a)`, in a row above row `k`, is the first that holds
/// subset `k`.
pub open spec fn first_found(rows: Seq<Seq<Option<usize>>>, k: usize, i: int, a: int) -> bool {
    &&& 0 <= i < rows.len()
    &&& i < k
    &&& 0 <= a < rows[i].len()
    &&& rows[i][a] == Some(k)
    &&& smaller_before(rows, k, i, a)
}

/// Whether subset `k` is numbered in the order of discovery: some cell of an
/// earlier row is the first to hold it.
pub open spec fn is_found(rows: Seq<Seq<Option<usize>>>, k: usize) -> bool {
    exists|i: int, a: int| #[trigger] first_found(rows, k, i, a)
}

/// What holds while the reachable subsets are explored: `subsets` starts
/// with the closure of the start state and lists distinct sets; `rows` holds
/// the finished rows of the table and, last, the row in progress; every
/// subset but the first was found from an earlier one, in order.
pub open spec fn explored(
    edges: Set<Edge>,
    start: usize,
    alphabet: Seq<char>,
    subsets: Seq<Set<usize>>,
    rows: Seq<Seq<Option<usize>>>,
) -> bool {
    &&& subsets.len() >= 1
    &&& subsets[0] == eps_closure(edges, set![start])
    &&& forall|i: int, j: int| 0 <= i < j < subsets.len() ==> subsets[i] != subsets[j]
    &&& rows.len() <= subsets.len()
    &&& forall|i: int| 0 <= i < rows.len() ==> (#[trigger] rows[i]).len() <= alphabet.len()
    &&& forall|i: int| 0 <= i < rows.len() - 1 ==> (#[trigger] rows[i]).len() == alphabet.len()
    &&& forall|i: int, a: int|
        0 <= i < rows.len() && 0 <= a < rows[i].len() ==> entry_ok(
            edges,
            alphabet,
            subsets,
            i,
            a,
            #[trigger] rows[i][a],
        )
    &&& forall|k: usize| 1 <= k < subsets.len() ==> #[trigger] is_found(rows, k)
}

/// Whether `longer` holds the cells of `rows`, unchanged, and after them
/// only cells that come later in the reading order.
pub open spec fn extends(rows: Seq<Seq<Option<usize>>>, longer: Seq<Seq<Option<usize>>>) -> bool {
    &&& rows.len() <= longer.len()
    &&& forall|i: int| 0 <= i < rows.len() ==> rows[i].len() <= (#[trigger] longer[i]).len()
    &&& forall|i: int, a: int|
        0 <= i < rows.len() && 0 <= a < rows[i].len() ==> #[trigger] longer[i][a] == rows[i][a]
    &&& forall|i2: int, a2: int, i: int, a: int|
        0 <= i2 < longer.len() && 0 <= a2 < longer[i2].len() && !(i2 < rows.len() && a2
            < rows[i2].len()) && 0 <= i < rows.len() && 0 <= a < rows[i].len() ==> !#[trigger] precedes(
            i2,
            a2,
            i,
            a,
        )
}

/// The first cell to hold a subset stays the first when cells are added
/// after all others.
proof fn lemma_found_stays(
    rows: Seq<Seq<Option<usize>>>,
    longer: Seq<Seq<Option<usize>>>,
    k: usize,
)
    requires
        is_found(rows, k),
        extends(rows, longer),
    ensures
        is_found(longer, k),
{
    let (i, a) = choose|i: int, a: int| #[trigger] first_found(rows, k, i, a);
    assert(longer[i][a] == rows[i][a]);
    assert(rows[i].len() <= longer[i].len());
    assert forall|i2: int, a2: int|
        0 <= i2 < longer.len() && 0 <= a2 < longer[i2].len() && precedes(i2, a2, i, a) implies (
    #[trigger] longer[i2][a2] matches Some(j) ==> j < k) by {
        if i2 < rows.len() && a2 < rows[i2].len() {
            assert(longer[i2][a2] == rows[i2][a2]);
            assert(rows[i2][a2] matches Some(j) ==> j < k);
        }
    }
    assert(first_found(longer, k, i, a));
}

/// Finds the index of the member of `subsets` that holds the states of
/// `wanted`.
fn find_subset(subsets: &Vec<StateSet>, wanted: &StateSet) -> (found: Option<usize>)
    requires
        wanted.wf(),
        forall|i: int| 0 <= i < subsets@.len() ==> (#[trigger] subsets@[i]).wf(),
    ensures
        match found {
            Some(j) => j < subsets@.len() && subsets@[j as int]@ == wanted@,
            None => forall|i: int| 0 <= i < subsets@.len() ==> (#[trigger] subsets@[i])@ != wanted@,
        },
{
    let mut j: usize = 0;
    while j < subsets.len()
        invariant
            wanted.wf(),
            j <= subsets@.len(),
            forall|i: int| 0 <= i < subsets@.len() ==> (#[trigger] subsets@[i]).wf(),
            forall|i: int| 0 <= i < j ==> (#[trigger] subsets@[i])@ != wanted@,
        decreases subsets@.len() - j,
    {
        if subsets[j].equals(wanted) {
            return Some(j);
        }
        j = j + 1;
    }
    None
}

impl Nfa {
    /// Explores the subsets of states that are reachable from the start
    /// state: the subsets in the order of discovery, and for each subset and
    /// column of `alphabet` the index of the subset reached, if any state is.
    #[verifier::rlimit(60)]
    pub fn explore(&self, alphabet: &Vec<char>) -> (found: (
        Vec<StateSet>,
        Vec<Vec<Option<usize>>>,
    ))
        ensures
            forall|i: int| 0 <= i < found.0@.len() ==> (#[trigger] found.0@[i]).wf(),
            found.1@.len() == found.0@.len(),
            forall|i: int| 0 <= i < found.1@.len() ==> (#[trigger] found.1@[i])@.len() == alphabet@.len(),
            explored(
                self.edges(),
                self.start_state,
                alphabet@,
                set_views(found.0@),
                row_views(found.1@),
            ),
    {
        let ghost edges = self.edges();
        let m = alphabet.len();
        let first = StateSet::singleton(self.start_state);
        let start_set = self.epsilon_closure(&first);
        let mut subsets: Vec<StateSet> = Vec::new();
        subsets.push(start_set);
        let mut rows: Vec<Vec<Option<usize>>> = Vec::new();
        let mut cursor: usize = 0;
        proof {
            assert(set_views(subsets@)[0] == subsets@[0]@);
        }
        while cursor < subsets.len()
            invariant
                edges == self.edges(),
                m == alphabet@.len(),
                cursor == rows@.len(),
                cursor <= subsets@.len(),
                forall|i: int| 0 <= i < subsets@.len() ==> (#[trigger] subsets@[i]).wf(),
                forall|i: int| 0 <= i < rows@.len() ==> (#[trigger] rows@[i])@.len() == m,
                explored(
                    edges,
                    self.start_state,
                    alphabet@,
                    set_views(subsets@),
                    row_views(rows@),
                ),
            decreases usize::MAX - cursor,
        {
            let mut row: Vec<Option<usize>> = Vec::new();
            let mut a: usize = 0;
            proof {
                let before = row_views(rows@);
                let filled = before.push(row@);
                assert(extends(before, filled));
                assert forall|k: usize| 1 <= k < subsets@.len() implies #[trigger] is_found(
                    filled,
                    k,
                ) by {
                    assert(is_found(before, k));
                    lemma_found_stays(before, filled, k);
                }
                assert forall|i: int, b: int|
                    0 <= i < filled.len() && 0 <= b < filled[i].len() implies entry_ok(
                    edges,
                    alphabet@,
                    set_views(subsets@),
                    i,
                    b,
                    #[trigger] filled[i][b],
                ) by {
                    assert(filled[i][b] == before[i][b]);
                }
                assert forall|i: int| 0 <= i < filled.len() - 1 implies (#[trigger] filled[i]).len()
                    == alphabet@.len() by {
                    assert(filled[i] == rows@[i]@);
                }
            }
            while a < m
                invariant
                    edges == self.edges(),
                    m == alphabet@.len(),
                    a <= m,
                    a == row@.len(),
                    cursor == rows@.len(),
                    cursor < subsets@.len(),
                    forall|i: int| 0 <= i < subsets@.len() ==> (#[trigger] subsets@[i]).wf(),
                    forall|i: int| 0 <= i < rows@.len() ==> (#[trigger] rows@[i])@.len() == m,
                    explored(
                        edges,
                        self.start_state,
                        alphabet@,
                        set_views(subsets@),
                        row_views(rows@).push(row@),
                    ),
                decreases m - a,
            {
                let ghost old_sets = set_views(subsets@);
                let ghost old_filled = row_views(rows@).push(row@);
                let moved = self.move_on_char(&subsets[cursor], alphabet[a]);
                let target = self.epsilon_closure(&moved);
                proof {
                    assert(old_sets[cursor as int] == subsets@[cursor as int]@);
                    assert(target@ == step(edges, old_sets[cursor as int], alphabet@[a as int]));
                }
                let entry = if target.is_empty() {
                    None
                } else {
                    match find_subset(&subsets, &target) {
                        Some(j) => {
                            proof {
                                assert(old_sets[j as int] == subsets@[j as int]@);
                            }
                            Some(j)
                        },
                        None => {
                            let k = subsets.len();
                            proof {
                                assert forall|i: int| 0 <= i < old_sets.len() implies old_sets[i]
                                    != target@ by {
                                    assert(old_sets[i] == subsets@[i]@);
                                }
                            }
                            subsets.push(target);
                            proof {
                                assert(set_views(subsets@) =~= old_sets.push(target@));
                            }
                            Some(k)
                        },
                    }
                };
                row.push(entry);
                proof {
                    let sets = set_views(subsets@);
                    let filled = row_views(rows@).push(row@);
                    let last = cursor as int;
                    assert(filled.len() == old_filled.len());
                    assert(filled[last] =~= old_filled[last].push(entry));
                    assert forall|i: int| 0 <= i < old_filled.len() implies old_filled[i].len() <= (
                    #[trigger] filled[i]).len() by {
                        if i < last {
                            assert(filled[i] == old_filled[i]);
                        }
                    }
                    assert forall|i: int, b: int|
                        0 <= i < old_filled.len() && 0 <= b < old_filled[i].len() implies #[trigger] filled[i][b]
                        == old_filled[i][b] by {
                        if i < last {
                            assert(filled[i] == old_filled[i]);
                        }
                    }
                    assert(extends(old_filled, filled)) by {
                        assert forall|i2: int, a2: int, i: int, b: int|
                            0 <= i2 < filled.len() && 0 <= a2 < filled[i2].len() && !(i2
                                < old_filled.len() && a2 < old_filled[i2].len()) && 0 <= i
                                < old_filled.len() && 0 <= b < old_filled[i].len() implies !#[trigger] precedes(
                            i2,
                            a2,
                            i,
                            b,
                        ) by {
                            if i2 < last {
                                assert(filled[i2] == old_filled[i2]);
                            }
                        }
                    }
                    assert(sets.len() >= old_sets.len());
                    assert forall|i: int| 0 <= i < old_sets.len() implies sets[i] == old_sets[i] by {
                        assert(sets[i] == subsets@[i]@);
                        assert(old_sets[i] == subsets@[i]@) by {
                            if sets.len() > old_sets.len() {
                                assert(old_sets.push(target@)[i] == old_sets[i]);
                            }
                        }
                    }
                    assert forall|i: int, j: int| 0 <= i < j < sets.len() implies sets[i]
                        != sets[j] by {
                        if j < old_sets.len() {
                            assert(old_sets[i] != old_sets[j]);
                        }
                    }
                    assert forall|i: int, b: int|
                        0 <= i < filled.len() && 0 <= b < filled[i].len() implies entry_ok(
                        edges,
                        alphabet@,
                        sets,
                        i,
                        b,
                        #[trigger] filled[i][b],
                    ) by {
                        if i == last && b == a {
                            assert(filled[i][b] == entry);
                        } else {
                            assert(filled[i][b] == old_filled[i][b]);
                            assert(entry_ok(edges, alphabet@, old_sets, i, b, old_filled[i][b]));
                        }
                    }
                    assert forall|k: usize| 1 <= k < sets.len() implies #[trigger] is_found(
                        filled,
                        k,
                    ) by {
                        if k < old_sets.len() {
                            assert(is_found(old_filled, k));
                            lemma_found_stays(old_filled, filled, k);
                        } else {
                            assert(entry == Some(k));
                            assert forall|i2: int, a2: int|
                                0 <= i2 < filled.len() && 0 <= a2 < filled[i2].len() && precedes(
                                    i2,
                                    a2,
                                    last,
                                    a as int,
                                ) implies (#[trigger] filled[i2][a2] matches Some(j) ==> j
                                < k) by {
                                assert(filled[i2][a2] == old_filled[i2][a2]);
                                assert(entry_ok(
                                    edges,
                                    alphabet@,
                                    old_sets,
                                    i2,
                                    a2,
                                    old_filled[i2][a2],
                                ));
                            }
                            assert(first_found(filled, k, last, a as int));
                        }
                    }
                    assert forall|i: int| 0 <= i < filled.len() - 1 implies (#[trigger] filled[i]).len()
                        == alphabet@.len() by {
                        assert(filled[i] == old_filled[i]);
                    }
                }
                a = a + 1;
            }
            let ghost filled = row_views(rows@).push(row@);
            rows.push(row);
            proof {
                assert(row_views(rows@) =~= filled);
            }
            cursor = cursor + 1;
        }
        (subsets, rows)
    }
}


/// The cell of row `i` and column `a` in a row-major table of `m` columns.
pub open spec fn cell(table: Seq<usize>, m: int, i: int, a: int) -> usize {
    table[i * m + a]
}

/// What a cell of the dense table holds for an entry of exploration: the
/// index found, or `sink` where none was.
pub open spec fn filled_in(entry: Option<usize>, sink: usize) -> usize {
    match entry {
        Some(j) => j,
        None => sink,
    }
}

/// Whether some entry of `rows` is missing.
pub open spec fn has_hole(rows: Seq<Seq<Option<usize>>>) -> bool {
    exists|i: int, a: int| 0 <= i < rows.len() && 0 <= a < rows[i].len() && (#[trigger] rows[i][a]) is None
}

/// Lays the rows out as one dense table in which `sink` fills the missing
/// entries, and tells whether any entry was missing.
fn flatten(rows: &Vec<Vec<Option<usize>>>, m: usize, sink: usize) -> (out: (Vec<usize>, bool))
    requires
        forall|i: int| 0 <= i < rows@.len() ==> (#[trigger] rows@[i])@.len() == m,
    ensures
        out.0@.len() == rows@.len() * m,
        forall|i: int, a: int|
            0 <= i < rows@.len() && 0 <= a < m ==> #[trigger] cell(out.0@, m as int, i, a)
                == filled_in(rows@[i]@[a], sink),
        out.1 == has_hole(row_views(rows@)),
{
    let mut table: Vec<usize> = Vec::new();
    let mut holes = false;
    let mut i: usize = 0;
    let ghost views = row_views(rows@);
    proof {
        assert(0 * (m as int) == 0) by (nonlinear_arith);
    }
    while i < rows.len()
        invariant
            i <= rows@.len(),
            views == row_views(rows@),
            forall|k: int| 0 <= k < rows@.len() ==> (#[trigger] rows@[k])@.len() == m,
            table@.len() == i * m,
            forall|i2: int, a2: int|
                0 <= i2 < i && 0 <= a2 < m ==> #[trigger] cell(table@, m as int, i2, a2)
                    == filled_in(rows@[i2]@[a2], sink),
            holes == exists|i2: int, a2: int|
                0 <= i2 < i && 0 <= a2 < views[i2].len() && (#[trigger] views[i2][a2]) is None,
        decreases rows@.len() - i,
    {
        let row = &rows[i];
        let mut a: usize = 0;
        let ghost holes_before = holes;
        while a < m
            invariant
                i < rows@.len(),
                a <= m,
                row@ == rows@[i as int]@,
                row@.len() == m,
                views == row_views(rows@),
                table@.len() == i * m + a,
                forall|i2: int, a2: int|
                    0 <= i2 < i && 0 <= a2 < m ==> #[trigger] cell(table@, m as int, i2, a2)
                        == filled_in(rows@[i2]@[a2], sink),
                forall|a2: int|
                    0 <= a2 < a ==> #[trigger] cell(table@, m as int, i as int, a2) == filled_in(
                        row@[a2],
                        sink,
                    ),
                holes == (holes_before || exists|a2: int|
                    0 <= a2 < a && (#[trigger] row@[a2]) is None),
            decreases m - a,
        {
            let ghost before = table@;
            let value = match row[a] {
                Some(j) => j,
                None => {
                    holes = true;
                    sink
                },
            };
            table.push(value);
            proof {
                assert forall|i2: int, a2: int| 0 <= i2 < i && 0 <= a2 < m implies #[trigger] cell(
                    table@,
                    m as int,
                    i2,
                    a2,
                ) == filled_in(rows@[i2]@[a2], sink) by {
                    lemma_cell_in_table(i2, a2, i as int, m as int);
                    assert(cell(before, m as int, i2, a2) == filled_in(rows@[i2]@[a2], sink));
                }
                assert forall|a2: int| 0 <= a2 < a + 1 implies #[trigger] cell(
                    table@,
                    m as int,
                    i as int,
                    a2,
                ) == filled_in(row@[a2], sink) by {
                    if a2 < a {
                        assert(cell(before, m as int, i as int, a2) == filled_in(row@[a2], sink));
                    }
                }
            }
            a = a + 1;
        }
        proof {
            assert((i + 1) * m == i * m + m) by (nonlinear_arith);
            assert(views[i as int] == row@);
            if holes && !holes_before {
                let a2 = choose|a2: int| 0 <= a2 < m && (#[trigger] row@[a2]) is None;
                assert(views[i as int][a2] is None);
            }
        }
        i = i + 1;
    }
    proof {
        assert forall|k: int| 0 <= k < views.len() implies (#[trigger] views[k]).len() == m by {
            assert(views[k] == rows@[k]@);
        }
    }
    (table, holes)
}

/// Appends to the table the row of the sink: every column leads back to it.
fn push_sink_row(table: &mut Vec<usize>, m: usize, sink: usize)
    requires
        old(table)@.len() == sink * m,
    ensures
        final(table)@.len() == (sink + 1) * m,
        forall|k: int| 0 <= k < old(table)@.len() ==> final(table)@[k] == old(table)@[k],
        forall|a: int| 0 <= a < m ==> #[trigger] cell(final(table)@, m as int, sink as int, a) == sink,
{
    let mut a: usize = 0;
    while a < m
        invariant
            a <= m,
            old(table)@.len() == sink * m,
            table@.len() == sink * m + a,
            forall|k: int| 0 <= k < old(table)@.len() ==> table@[k] == old(table)@[k],
            forall|a2: int| 0 <= a2 < a ==> #[trigger] cell(table@, m as int, sink as int, a2) == sink,
        decreases m - a,
    {
        let ghost before = table@;
        table.push(sink);
        proof {
            assert forall|a2: int| 0 <= a2 < a + 1 implies #[trigger] cell(
                table@,
                m as int,
                sink as int,
                a2,
            ) == sink by {
                if a2 < a {
                    assert(cell(before, m as int, sink as int, a2) == sink);
                }
            }
        }
        a = a + 1;
    }
    proof {
        assert((sink + 1) * m == sink * m + m) by (nonlinear_arith);
    }
}


/// The keys of the states of `subset`.
pub open spec fn member_keys(keys: Seq<Seq<char>>, subset: Set<usize>) -> Set<Seq<char>> {
    Set::new(
        |k: Seq<char>| exists|q: usize| subset.contains(q) && q < keys.len() && keys[q as int] == k,
    )
}

/// `inner` between braces.
pub open spec fn braced(inner: Seq<char>) -> Seq<char> {
    seq!['{'] + inner + seq!['}']
}

/// Whether `label` is the key of the deterministic state that stands for
/// `subset`: the keys of its states in ascending order, separated by commas
/// and wrapped in braces.
pub open spec fn is_subset_key(keys: Seq<Seq<char>>, subset: Set<usize>, label: Seq<char>) -> bool {
    exists|ks: Seq<Seq<char>>| #[trigger]
        texts_ascending(ks) && ks.to_set() == member_keys(keys, subset) && label == braced(
            join(ks, seq![',']),
        )
}

/// The map that results when each of `labels` is put into an empty two-way
/// map with its position, one after the other.
pub open spec fn numbered(labels: Seq<Seq<char>>) -> Map<Seq<char>, usize>
    decreases labels.len(),
{
    if labels.len() == 0 {
        Map::<Seq<char>, usize>::empty()
    } else {
        pairs_after_insert(
            numbered(labels.drop_last()),
            labels.last(),
            (labels.len() - 1) as usize,
        )
    }
}

/// Labels that differ from one another are numbered by their positions.
pub proof fn lemma_numbered_distinct(labels: Seq<Seq<char>>)
    requires
        labels.no_duplicates(),
        labels.len() <= usize::MAX,
    ensures
        is_indexing(numbered(labels), labels),
    decreases labels.len(),
{
    if labels.len() == 0 {
        assert(numbered(labels).dom() =~= labels.to_set());
    } else {
        let front = labels.drop_last();
        lemma_numbered_distinct(front);
        if front.contains(labels.last()) {
            let k = choose|k: int| 0 <= k < front.len() && front[k] == labels.last();
            assert(labels[k] == labels[labels.len() - 1]);
        }
        lemma_indexing_insert(numbered(front), front, labels.last());
        assert(front.push(labels.last()) =~= labels);
    }
}

/// The labels of the states, in the order of their indices; the empty text
/// where a state has none.
pub open spec fn labels_of(properties: Seq<StateInfo>) -> Seq<Seq<char>> {
    Seq::new(
        properties.len(),
        |i: int|
            match properties[i].label {
                Some(l) => l@,
                None => Seq::<char>::empty(),
            },
    )
}

/// Whether subset `i` reaches no state on the character of column `a`.
pub open spec fn is_gap(
    edges: Set<Edge>,
    alphabet: Seq<char>,
    subsets: Seq<Set<usize>>,
    i: int,
    a: int,
) -> bool {
    step(edges, subsets[i], alphabet[a]) == Set::<usize>::empty()
}

/// Whether some subset reaches no state on some character, so that a dead
/// state is needed.
pub open spec fn has_gap(edges: Set<Edge>, alphabet: Seq<char>, subsets: Seq<Set<usize>>) -> bool {
    exists|i: int, a: int|
        0 <= i < subsets.len() && 0 <= a < alphabet.len() && #[trigger] is_gap(
            edges,
            alphabet,
            subsets,
            i,
            a,
        )
}

/// Whether `target` is where the deterministic state of subset `i` goes on
/// the character of column `a`: the state of the subset reached, or the dead
/// state, which comes after all subsets, where no state is reached.
pub open spec fn cell_ok(
    edges: Set<Edge>,
    alphabet: Seq<char>,
    subsets: Seq<Set<usize>>,
    i: int,
    a: int,
    target: int,
) -> bool {
    let reached = step(edges, subsets[i], alphabet[a]);
    if reached == Set::<usize>::empty() {
        target == subsets.len()
    } else {
        0 <= target < subsets.len() && subsets[target] == reached
    }
}

/// Whether every cell before `(i, a)` in the rows of the subsets leads to a
/// state below `k` or to the dead state.
pub open spec fn only_smaller_before(d: &Dfa, n: int, k: int, i: int, a: int) -> bool {
    forall|i2: int, a2: int|
        0 <= i2 < n && 0 <= a2 < d.symbols().len() && precedes(i2, a2, i, a) ==> (
        #[trigger] d.successor(i2, a2)) < k || d.successor(i2, a2) == n
}

/// Whether cell `(i, a)`, in a row above row `k`, is the first in reading
/// order that leads to state `k`.
pub open spec fn first_reference(d: &Dfa, n: int, k: int, i: int, a: int) -> bool {
    &&& 0 <= i < k
    &&& 0 <= a < d.symbols().len()
    &&& d.successor(i, a) == k
    &&& only_smaller_before(d, n, k, i, a)
}

/// Whether state `k` is numbered in the order of discovery.
pub open spec fn in_discovery_order(d: &Dfa, n: int, k: int) -> bool {
    exists|i: int, a: int| #[trigger] first_reference(d, n, k, i, a)
}

/// Whether `d` is the subset construction of the automaton with the
/// transitions `edges`, the start state `start` and the accepting states
/// `accept` over `alphabet`, its states standing for `subsets` in this order.
///
/// State 0 stands for the closure of the start state. The states stand for
/// different subsets, each found from an earlier one and numbered as first
/// met when the table is read row by row. A transition leads to the state of
/// the subset reached; where no state is reached it leads to the dead state,
/// which exists only if needed, comes last, loops to itself and does not
/// accept. A state accepts where its subset holds an accepting state.
pub open spec fn determinizes(
    edges: Set<Edge>,
    start: usize,
    accept: Set<usize>,
    alphabet: Seq<char>,
    subsets: Seq<Set<usize>>,
    d: &Dfa,
) -> bool {
    let n = subsets.len() as int;
    let m = alphabet.len() as int;
    &&& d.symbols() == alphabet
    &&& n >= 1
    &&& subsets[0] == eps_closure(edges, set![start])
    &&& forall|i: int, j: int| 0 <= i < j < n ==> subsets[i] != subsets[j]
    &&& d.num_states() == if has_gap(edges, alphabet, subsets) {
        n + 1
    } else {
        n
    }
    &&& d.start_state_idx == 0
    &&& forall|i: int, a: int|
        0 <= i < n && 0 <= a < m ==> cell_ok(
            edges,
            alphabet,
            subsets,
            i,
            a,
            #[trigger] d.successor(i, a),
        )
    &&& has_gap(edges, alphabet, subsets) ==> forall|a: int|
        0 <= a < m ==> #[trigger] d.successor(n, a) == n
    &&& forall|i: int| 0 <= i < n ==> #[trigger] d.accept_states@[i] == meets(subsets[i], accept)
    &&& has_gap(edges, alphabet, subsets) ==> !d.accept_states@[n]
    &&& forall|k: int| 1 <= k < n ==> #[trigger] in_discovery_order(d, n, k)
}

/// Whether the states of `d` are named after `subsets`: each state of a
/// subset is labelled with the key of the subset, made of the keys `keys` of
/// its states; the dead state, if there is one, is labelled `FAILURE`; and
/// the state keys are the labels, put into the map of keys in order.
pub open spec fn labelled(keys: Seq<Seq<char>>, subsets: Seq<Set<usize>>, d: &Dfa) -> bool {
    let n = subsets.len() as int;
    &&& d.state_properties@.len() == d.num_states()
    &&& forall|i: int|
        0 <= i < n && i < d.num_states() ==> (#[trigger] d.state_properties@[i]).label is Some
            && is_subset_key(keys, subsets[i], labels_of(d.state_properties@)[i])
    &&& d.num_states() > n ==> d.state_properties@[n].label is Some && labels_of(
        d.state_properties@,
    )[n] == "FAILURE"@
    &&& key_pairs(d.state_keys) == numbered(labels_of(d.state_properties@))
}

/// Whether every character of `w` belongs to `alphabet`.
pub open spec fn over(alphabet: Seq<char>, w: Seq<char>) -> bool {
    forall|i: int| 0 <= i < w.len() ==> alphabet.contains(#[trigger] w[i])
}


/// Where the subset construction stands after an input over the alphabet:
/// in the state of the subset that the nondeterministic automaton has
/// reached, or in the dead state where it has reached no state.
pub proof fn lemma_determinized_run(
    edges: Set<Edge>,
    start: usize,
    accept: Set<usize>,
    alphabet: Seq<char>,
    subsets: Seq<Set<usize>>,
    d: &Dfa,
    w: Seq<char>,
)
    requires
        d.wf(),
        determinizes(edges, start, accept, alphabet, subsets, d),
        over(alphabet, w),
    ensures
        d.state_after(0, w) is Some,
        ({
            let q = d.state_after(0, w)->0;
            let reached = states_after(edges, eps_closure(edges, set![start]), w);
            if reached == Set::<usize>::empty() {
                q == subsets.len() && has_gap(edges, alphabet, subsets)
            } else {
                0 <= q < subsets.len() && subsets[q] == reached
            }
        }),
    decreases w.len(),
{
    let initial = eps_closure(edges, set![start]);
    if w.len() == 0 {
        assert(crate::nfa::eps_path(edges, start, start, 0));
        assert(set![start].contains(start));
        assert(crate::nfa::eps_reach(edges, start, start));
        assert(initial.contains(start));
    } else {
        let front = w.drop_last();
        let c = w.last();
        assert forall|i: int| 0 <= i < front.len() implies alphabet.contains(#[trigger] front[i]) by {
            assert(front[i] == w[i]);
        }
        lemma_determinized_run(edges, start, accept, alphabet, subsets, d, front);
        let q = d.state_after(0, front)->0;
        let before = states_after(edges, initial, front);
        let reached = states_after(edges, initial, w);
        assert(reached == step(edges, before, c));
        assert(alphabet.contains(w[w.len() - 1]));
        lemma_indexing_items(symbol_pairs(d.alphabet), d.symbols());
        assert(alphabet.to_set().contains(c));
        assert(d.in_alphabet(c));
        let a = symbol_pairs(d.alphabet)[c] as int;
        assert(alphabet[a] == c);
        if before == Set::<usize>::empty() {
            lemma_step_from_nothing(edges, c);
            assert(d.successor(subsets.len() as int, a) == subsets.len());
        } else {
            assert(cell_ok(edges, alphabet, subsets, q, a, d.successor(q, a)));
            if reached == Set::<usize>::empty() {
                assert(is_gap(edges, alphabet, subsets, q, a));
            }
        }
    }
}

/// The subset construction accepts exactly the inputs over its alphabet
/// that the nondeterministic automaton accepts.
pub proof fn lemma_determinized_language(
    edges: Set<Edge>,
    start: usize,
    accept: Set<usize>,
    alphabet: Seq<char>,
    subsets: Seq<Set<usize>>,
    d: &Dfa,
    w: Seq<char>,
)
    requires
        d.wf(),
        determinizes(edges, start, accept, alphabet, subsets, d),
    ensures
        d.accepts(w) <==> over(alphabet, w) && meets(
            states_after(edges, eps_closure(edges, set![start]), w),
            accept,
        ),
{
    lemma_indexing_items(symbol_pairs(d.alphabet), d.symbols());
    if over(alphabet, w) {
        lemma_determinized_run(edges, start, accept, alphabet, subsets, d, w);
    } else {
        let i = choose|i: int| 0 <= i < w.len() && !alphabet.contains(#[trigger] w[i]);
        if d.in_alphabet(w[i]) {
            assert(alphabet.to_set().contains(w[i]));
        }
        d.lemma_outside_alphabet_rejected(w, i);
    }
}


/// States below `bound` reach only states below `bound` by epsilon moves,
/// where every transition ends below `bound`.
proof fn lemma_closure_bounded(edges: Set<Edge>, states: Set<usize>, bound: nat)
    requires
        forall|e: Edge| edges.contains(e) ==> e.2 < bound,
        forall|q: usize| states.contains(q) ==> q < bound,
    ensures
        forall|q: usize| eps_closure(edges, states).contains(q) ==> q < bound,
{
    let below = Set::new(|q: usize| q < bound);
    assert forall|p: usize, q: usize|
        below.contains(p) && edges.contains((p, None::<char>, q)) implies below.contains(q) by {
        assert(edges.contains((p, None::<char>, q)));
    }
    lemma_closed_holds_closure(edges, states, below);
    assert forall|q: usize| eps_closure(edges, states).contains(q) implies q < bound by {
        assert(below.contains(q));
    }
}

/// Only states below `bound` are reached on a character, where every
/// transition ends below `bound`.
proof fn lemma_step_bounded(edges: Set<Edge>, states: Set<usize>, c: char, bound: nat)
    requires
        forall|e: Edge| edges.contains(e) ==> e.2 < bound,
    ensures
        forall|q: usize| step(edges, states, c).contains(q) ==> q < bound,
{
    let moved = move_on(edges, states, c);
    assert forall|q: usize| moved.contains(q) implies q < bound by {
        let p = choose|p: usize| states.contains(p) && edges.contains((p, Some(c), q));
        assert(edges.contains((p, Some(c), q)));
    }
    lemma_closure_bounded(edges, moved, bound);
}

impl Nfa {
    /// The key of the deterministic state that stands for `subset`: the keys
    /// of its states in ascending order, separated by commas, in braces.
    #[verifier::rlimit(60)]
    pub fn subset_key(&self, subset: &StateSet) -> (key: String)
        requires
            self.wf(),
            subset.wf(),
            forall|q: usize| subset@.contains(q) ==> q < self.num_states(),
        ensures
            is_subset_key(self.keys(), subset@, key@),
    {
        let ghost keys = self.keys();
        let ghost wanted = subset.seq().map_values(|q: usize| keys[q as int]);
        let mut texts: Vec<Vec<char>> = Vec::new();
        let n = subset.len();
        let mut i: usize = 0;
        proof {
            subset.lemma_seq();
            lemma_indexing_items(key_pairs(self.nfa_state_keys), keys);
            assert(text_views(texts@) =~= wanted.take(0));
        }
        while i < n
            invariant
                self.wf(),
                subset.wf(),
                keys == self.keys(),
                wanted == subset.seq().map_values(|q: usize| keys[q as int]),
                n == subset.seq().len(),
                i <= n,
                forall|q: usize| subset@.contains(q) ==> q < self.num_states(),
                text_views(texts@) == wanted.take(i as int),
            decreases n - i,
        {
            let q = subset.get(i);
            let ghost before = text_views(texts@);
            proof {
                lemma_indexing_items(key_pairs(self.nfa_state_keys), keys);
                assert(keys.to_set().contains(keys[q as int]));
            }
            let text = match keys_get_by_right(&self.nfa_state_keys, q) {
                Some(key) => chars_of(key.as_str()),
                None => Vec::new(),
            };
            texts.push(text);
            proof {
                assert(text@ == keys[q as int]);
                assert(text_views(texts@) =~= before.push(text@));
                assert(wanted.take(i as int + 1) =~= wanted.take(i as int).push(wanted[i as int]));
            }
            i = i + 1;
        }
        proof {
            assert(wanted.take(n as int) =~= wanted);
            lemma_indexing_items(key_pairs(self.nfa_state_keys), keys);
            assert forall|x: int, y: int|
                0 <= x < wanted.len() && 0 <= y < wanted.len() && x != y implies wanted[x]
                != wanted[y] by {
                assert(subset.seq()[x] != subset.seq()[y]);
                assert(subset@.contains(subset.seq()[x]));
                assert(subset@.contains(subset.seq()[y]));
            }
        }
        let sorted = sort_texts(texts);
        let mut out: Vec<char> = Vec::new();
        out.push('{');
        let mut comma: Vec<char> = Vec::new();
        comma.push(',');
        push_joined(&mut out, &sorted, &comma);
        out.push('}');
        let key = string_of(&out);
        proof {
            let ks = text_views(sorted@);
            assert(comma@ =~= seq![',']);
            assert(out@ =~= braced(join(ks, seq![','])));
            assert forall|k: Seq<char>| wanted.to_set().contains(k) <==> member_keys(
                keys,
                subset@,
            ).contains(k) by {
                if wanted.to_set().contains(k) {
                    let x = choose|x: int| 0 <= x < wanted.len() && wanted[x] == k;
                    assert(subset@.contains(subset.seq()[x]));
                }
                if member_keys(keys, subset@).contains(k) {
                    let q = choose|q: usize|
                        subset@.contains(q) && q < keys.len() && keys[q as int] == k;
                    assert(subset.seq().contains(q));
                    let x = choose|x: int| 0 <= x < subset.seq().len() && subset.seq()[x] == q;
                    assert(wanted[x] == k);
                }
            }
            assert(ks.to_set() =~= member_keys(keys, subset@));
            assert(texts_ascending(ks));
        }
        key
    }

    /// Converts the automaton to a deterministic one over the characters of
    /// `alphabet_set` by the subset construction.
    ///
    /// The result accepts exactly the inputs over the alphabet that this
    /// automaton accepts. Its states are the reachable subsets in the order
    /// of discovery, with a dead state after them where a transition is
    /// missing.
    #[verifier::rlimit(60)]
    pub fn to_dfa(&self, name: &str, description: Option<String>, alphabet_set: &CharSet) -> (r:
        Result<Dfa, FsmError>)
        requires
            self.wf(),
            alphabet_set.wf(),
        ensures
            r is Ok,
            r->Ok_0.wf(),
            r->Ok_0.name@ == name@,
            r->Ok_0.description == description,
            exists|subsets: Seq<Set<usize>>| #[trigger]
                determinizes(
                    self.edges(),
                    self.start_state,
                    self.nfa_accept_states@,
                    alphabet_set.seq(),
                    subsets,
                    &r->Ok_0,
                ) && labelled(self.keys(), subsets, &r->Ok_0),
            forall|w: Seq<char>|
                #[trigger] r->Ok_0.accepts(w) <==> over(alphabet_set.seq(), w) && self.accepts(w),
            comma_free_keys(self.keys()) ==> r->Ok_0.keyed(),
    {
        let ghost edges = self.edges();
        let ghost keys = self.keys();
        let alphabet = alphabet_set.to_vec();
        let m = alphabet.len();
        let (subsets, rows) = self.explore(&alphabet);
        let n = subsets.len();
        let ghost sets = set_views(subsets@);
        let ghost cells = row_views(rows@);
        proof {
            lemma_indexing_items(key_pairs(self.nfa_state_keys), keys);
            assert forall|e: Edge| edges.contains(e) implies e.2 < self.num_states() by {
                let k = choose|k: int|
                    0 <= k < self.transitions@.len() && self.transitions@[k] == e;
                assert(self.transitions@[k].2 < self.num_states());
            }
            assert forall|i: int, q: usize|
                0 <= i < sets.len() && #[trigger] sets[i].contains(q) implies q
                < self.num_states() by {
                lemma_sets_bounded(
                    edges,
                    self.start_state,
                    alphabet@,
                    sets,
                    cells,
                    i,
                    self.num_states(),
                );
            }
        }
        let (mut table, needs_dead_state) = flatten(&rows, m, n);
        let ghost flat = table@;
        if needs_dead_state {
            push_sink_row(&mut table, m, n);
        }
        let mut state_keys = keys_new();
        let mut state_properties: Vec<StateInfo> = Vec::new();
        let mut accept_states: Vec<bool> = Vec::new();
        let mut i: usize = 0;
        proof {
            assert(labels_of(state_properties@) =~= Seq::<Seq<char>>::empty());
        }
        while i < n
            invariant
                self.wf(),
                keys == self.keys(),
                n == subsets@.len(),
                sets == set_views(subsets@),
                i <= n,
                forall|k: int| 0 <= k < subsets@.len() ==> (#[trigger] subsets@[k]).wf(),
                forall|k: int, q: usize|
                    0 <= k < sets.len() && #[trigger] sets[k].contains(q) ==> q
                        < self.num_states(),
                state_properties@.len() == i,
                accept_states@.len() == i,
                key_pairs(state_keys) == numbered(labels_of(state_properties@)),
                forall|k: int|
                    0 <= k < i ==> (#[trigger] state_properties@[k]).label is Some
                        && is_subset_key(keys, sets[k], labels_of(state_properties@)[k])
                        && state_properties@[k].accept == accept_states@[k],
                forall|k: int|
                    0 <= k < i ==> #[trigger] accept_states@[k] == meets(
                        sets[k],
                        self.nfa_accept_states@,
                    ),
            decreases n - i,
        {
            let ghost before = state_properties@;
            proof {
                assert(sets[i as int] == subsets@[i as int]@);
            }
            let is_accepting = subsets[i].intersects(&self.nfa_accept_states);
            let new_key = self.subset_key(&subsets[i]);
            keys_insert(&mut state_keys, new_key.clone(), i);
            state_properties.push(StateInfo { label: Some(new_key), accept: is_accepting });
            accept_states.push(is_accepting);
            proof {
                let labels = labels_of(state_properties@);
                assert(labels.drop_last() =~= labels_of(before));
                assert(labels.last() == new_key@);
                assert forall|k: int| 0 <= k < i + 1 implies (#[trigger] state_properties@[k]).label is Some
                    && is_subset_key(keys, sets[k], labels_of(state_properties@)[k])
                    && state_properties@[k].accept == accept_states@[k] by {
                    if k < i {
                        assert(state_properties@[k] == before[k]);
                        assert(labels[k] == labels_of(before)[k]);
                    }
                }
            }
            i = i + 1;
        }
        if needs_dead_state {
            let ghost before = state_properties@;
            let key = "FAILURE".to_owned();
            keys_insert(&mut state_keys, key.clone(), n);
            state_properties.push(StateInfo { label: Some(key), accept: false });
            accept_states.push(false);
            proof {
                let labels = labels_of(state_properties@);
                assert(labels.drop_last() =~= labels_of(before));
                assert(labels.last() == "FAILURE"@);
                assert forall|k: int| 0 <= k < n implies (#[trigger] state_properties@[k]).label is Some
                    && is_subset_key(keys, sets[k], labels_of(state_properties@)[k])
                    && state_properties@[k].accept == accept_states@[k] by {
                    assert(state_properties@[k] == before[k]);
                    assert(labels[k] == labels_of(before)[k]);
                }
            }
        }
        let dfa = Dfa {
            name: name.to_owned(),
            description,
            alphabet: symbol_index(alphabet_set),
            state_keys,
            start_state_idx: 0,
            accept_states,
            transition_table: table,
            state_properties,
        };
        proof {
            let d = &dfa;
            let symbols = alphabet_set.seq();
            alphabet_set.lemma_seq();
            lemma_indexing_items(symbol_pairs(d.alphabet), symbols);
            assert(d.symbols() == symbols);
            assert(alphabet@ == symbols);
            assert forall|k: int| 0 <= k < cells.len() implies (#[trigger] cells[k]).len() == m by {
                assert(cells[k] == rows@[k]@);
            }
            assert(needs_dead_state == has_gap(edges, symbols, sets)) by {
                if needs_dead_state {
                    let (i0, a0) = choose|i0: int, a0: int|
                        0 <= i0 < cells.len() && 0 <= a0 < cells[i0].len() && (
                        #[trigger] cells[i0][a0]) is None;
                    assert(entry_ok(edges, symbols, sets, i0, a0, cells[i0][a0]));
                    assert(is_gap(edges, symbols, sets, i0, a0));
                }
                if has_gap(edges, symbols, sets) {
                    let (i0, a0) = choose|i0: int, a0: int|
                        0 <= i0 < sets.len() && 0 <= a0 < symbols.len() && #[trigger] is_gap(
                            edges,
                            symbols,
                            sets,
                            i0,
                            a0,
                        );
                    assert(entry_ok(edges, symbols, sets, i0, a0, cells[i0][a0]));
                    assert(cells[i0][a0] is None);
                }
            }
            assert forall|i0: int, a0: int| 0 <= i0 < n && 0 <= a0 < m implies d.successor(i0, a0)
                == filled_in(cells[i0][a0], n) by {
                lemma_cell_in_table(i0, a0, n as int, m as int);
                assert(cell(flat, m as int, i0, a0) == filled_in(rows@[i0]@[a0], n));
                assert(d.transition_table@[i0 * m + a0] == flat[i0 * m + a0]);
                assert(cells[i0] == rows@[i0]@);
            }
            assert forall|i0: int, a0: int| 0 <= i0 < n && 0 <= a0 < m implies cell_ok(
                edges,
                symbols,
                sets,
                i0,
                a0,
                #[trigger] d.successor(i0, a0),
            ) by {
                assert(entry_ok(edges, symbols, sets, i0, a0, cells[i0][a0]));
            }
            if needs_dead_state {
                assert forall|a0: int| 0 <= a0 < m implies #[trigger] d.successor(n as int, a0)
                    == n by {
                    assert(cell(d.transition_table@, m as int, n as int, a0) == n);
                }
            }
            assert forall|k: int| 1 <= k < n implies #[trigger] in_discovery_order(
                d,
                n as int,
                k,
            ) by {
                assert(is_found(cells, k as usize));
                let (i0, a0) = choose|i0: int, a0: int| #[trigger]
                    first_found(cells, k as usize, i0, a0);
                assert forall|i2: int, a2: int|
                    0 <= i2 < n && 0 <= a2 < d.symbols().len() && precedes(
                        i2,
                        a2,
                        i0,
                        a0,
                    ) implies (#[trigger] d.successor(i2, a2)) < k || d.successor(i2, a2) == n by {
                    assert(d.successor(i2, a2) == filled_in(cells[i2][a2], n));
                    assert(cells[i2][a2] matches Some(j) ==> j < k);
                }
                assert(d.successor(i0, a0) == filled_in(cells[i0][a0], n));
                assert(first_reference(d, n as int, k, i0, a0));
            }
            assert forall|k: int| 0 <= k < d.transition_table@.len() implies #[trigger] d.transition_table@[k]
                < d.num_states() by {
                lemma_table_values(d.transition_table@, m as int, d.num_states() as int, k);
                let i0 = k / (m as int);
                let a0 = k % (m as int);
                if i0 < n {
                    assert(d.successor(i0, a0) == filled_in(cells[i0][a0], n));
                    assert(entry_ok(edges, symbols, sets, i0, a0, cells[i0][a0]));
                    if cells[i0][a0] is None {
                        assert(needs_dead_state);
                    }
                } else {
                    assert(cell(d.transition_table@, m as int, n as int, a0) == n);
                }
            }
            assert(d.wf());
            assert(determinizes(
                edges,
                self.start_state,
                self.nfa_accept_states@,
                symbols,
                sets,
                d,
            ));
            assert(labelled(keys, sets, d));
            if comma_free_keys(keys) {
                lemma_indexing_items(key_pairs(self.nfa_state_keys), keys);
                lemma_determinized_keyed(
                    edges,
                    self.start_state,
                    self.nfa_accept_states@,
                    symbols,
                    keys,
                    sets,
                    d,
                );
            }
            assert forall|w: Seq<char>| #[trigger]
                d.accepts(w) <==> over(symbols, w) && self.accepts(w) by {
                lemma_determinized_language(
                    edges,
                    self.start_state,
                    self.nfa_accept_states@,
                    symbols,
                    sets,
                    d,
                    w,
                );
            }
        }
        Ok(dfa)
    }
}

/// Every subset found holds only states below `bound`, where the start
/// state and the end of every transition are below `bound`.
proof fn lemma_sets_bounded(
    edges: Set<Edge>,
    start: usize,
    alphabet: Seq<char>,
    sets: Seq<Set<usize>>,
    cells: Seq<Seq<Option<usize>>>,
    i: int,
    bound: nat,
)
    requires
        explored(edges, start, alphabet, sets, cells),
        0 <= i < sets.len(),
        sets.len() <= usize::MAX,
        start < bound,
        forall|e: Edge| edges.contains(e) ==> e.2 < bound,
    ensures
        forall|q: usize| sets[i].contains(q) ==> q < bound,
{
    if i == 0 {
        lemma_closure_bounded(edges, set![start], bound);
    } else {
        assert(is_found(cells, i as usize));
        let (i0, a0) = choose|i0: int, a0: int| #[trigger] first_found(cells, i as usize, i0, a0);
        assert(entry_ok(edges, alphabet, sets, i0, a0, cells[i0][a0]));
        lemma_step_bounded(edges, sets[i0], alphabet[a0], bound);
    }
}

/// The place `k` of a row-major table of `m` columns is the cell of row
/// `k / m` and column `k % m`.
pub proof fn lemma_table_values(table: Seq<usize>, m: int, rows: int, k: int)
    requires
        0 <= k < table.len(),
        table.len() == rows * m,
        0 <= rows,
        0 <= m,
    ensures
        0 < m,
        0 <= k / m < rows,
        0 <= k % m < m,
        cell(table, m, k / m, k % m) == table[k],
{
    if m == 0 {
        assert(rows * m == 0) by (nonlinear_arith)
            requires
                m == 0,
        ;
    }
    vstd::arithmetic::div_mod::lemma_fundamental_div_mod(k, m);
    vstd::arithmetic::div_mod::lemma_div_pos_is_pos(k, m);
    vstd::arithmetic::div_mod::lemma_mod_bound(k, m);
    let q = k / m;
    assert(m * q + k % m == k);
    assert(q * m == m * q) by (nonlinear_arith);
    if q >= rows {
        assert(q * m >= rows * m) by (nonlinear_arith)
            requires
                q >= rows,
                m > 0,
        ;
    }
}


/// The key of a subset is not the label of the dead state.
pub proof fn lemma_subset_key_is_not_failure(keys: Seq<Seq<char>>, subset: Set<usize>, label: Seq<char>)
    requires
        is_subset_key(keys, subset, label),
    ensures
        label != "FAILURE"@,
{
    let ks = choose|ks: Seq<Seq<char>>| #[trigger]
        texts_ascending(ks) && ks.to_set() == member_keys(keys, subset) && label == braced(
            join(ks, seq![',']),
        );
    assert(label[0] == '{');
    reveal_strlit("FAILURE");
    assert("FAILURE"@[0] == 'F');
}

/// A subset has one key.
pub proof fn lemma_subset_key_unique(
    keys: Seq<Seq<char>>,
    subset: Set<usize>,
    first: Seq<char>,
    second: Seq<char>,
)
    requires
        is_subset_key(keys, subset, first),
        is_subset_key(keys, subset, second),
    ensures
        first == second,
{
    let ks1 = choose|ks: Seq<Seq<char>>| #[trigger]
        texts_ascending(ks) && ks.to_set() == member_keys(keys, subset) && first == braced(
            join(ks, seq![',']),
        );
    let ks2 = choose|ks: Seq<Seq<char>>| #[trigger]
        texts_ascending(ks) && ks.to_set() == member_keys(keys, subset) && second == braced(
            join(ks, seq![',']),
        );
    crate::text::lemma_ascending_unique(ks1, ks2);
}

/// In a subset construction, a state labelled `FAILURE` does not accept and
/// leads only to itself.
pub proof fn lemma_failure_state(
    edges: Set<Edge>,
    start: usize,
    accept: Set<usize>,
    alphabet: Seq<char>,
    keys: Seq<Seq<char>>,
    subsets: Seq<Set<usize>>,
    d: &Dfa,
    q: int,
)
    requires
        d.wf(),
        determinizes(edges, start, accept, alphabet, subsets, d),
        labelled(keys, subsets, d),
        0 <= q < d.num_states(),
        d.state_properties@[q].label is Some,
        labels_of(d.state_properties@)[q] == "FAILURE"@,
    ensures
        !d.accept_states@[q],
        forall|a: int| 0 <= a < d.symbols().len() ==> #[trigger] d.successor(q, a) == q,
{
    if q < subsets.len() {
        assert(d.state_properties@[q].label is Some);
        lemma_subset_key_is_not_failure(keys, subsets[q], labels_of(d.state_properties@)[q]);
    }
}


/// Whether none of `keys` holds a comma.
pub open spec fn comma_free_keys(keys: Seq<Seq<char>>) -> bool {
    forall|i: int| 0 <= i < keys.len() ==> comma_free(#[trigger] keys[i])
}

/// Different subsets of states with different keys without commas have
/// different keys.
#[verifier::rlimit(60)]
pub proof fn lemma_subset_keys_differ(
    keys: Seq<Seq<char>>,
    first: Set<usize>,
    second: Set<usize>,
    label: Seq<char>,
)
    requires
        keys.no_duplicates(),
        comma_free_keys(keys),
        forall|q: usize| first.contains(q) ==> q < keys.len(),
        forall|q: usize| second.contains(q) ==> q < keys.len(),
        first != Set::<usize>::empty(),
        second != Set::<usize>::empty(),
        is_subset_key(keys, first, label),
        is_subset_key(keys, second, label),
    ensures
        first == second,
{
    let ks1 = choose|ks: Seq<Seq<char>>| #[trigger]
        texts_ascending(ks) && ks.to_set() == member_keys(keys, first) && label == braced(
            join(ks, seq![',']),
        );
    let ks2 = choose|ks: Seq<Seq<char>>| #[trigger]
        texts_ascending(ks) && ks.to_set() == member_keys(keys, second) && label == braced(
            join(ks, seq![',']),
        );
    let j1 = join(ks1, seq![',']);
    let j2 = join(ks2, seq![',']);
    assert(j1 =~= braced(j1).subrange(1, braced(j1).len() - 1));
    assert(j2 =~= braced(j2).subrange(1, braced(j2).len() - 1));
    lemma_key_list(keys, first, ks1);
    lemma_key_list(keys, second, ks2);
    lemma_join_injective(ks1, ks2);
    assert forall|q: usize| first.contains(q) <==> second.contains(q) by {
        if first.contains(q) {
            assert(member_keys(keys, first).contains(keys[q as int]));
            assert(member_keys(keys, second).contains(keys[q as int]));
            let p = choose|p: usize|
                second.contains(p) && p < keys.len() && keys[p as int] == keys[q as int];
            assert(p == q);
        }
        if second.contains(q) {
            assert(member_keys(keys, second).contains(keys[q as int]));
            assert(member_keys(keys, first).contains(keys[q as int]));
            let p = choose|p: usize|
                first.contains(p) && p < keys.len() && keys[p as int] == keys[q as int];
            assert(p == q);
        }
    }
    assert(first =~= second);
}

/// The keys of the states of a subset that is not empty are at least one,
/// and without commas where the keys of all states are.
proof fn lemma_key_list(keys: Seq<Seq<char>>, subset: Set<usize>, ks: Seq<Seq<char>>)
    requires
        comma_free_keys(keys),
        forall|q: usize| subset.contains(q) ==> q < keys.len(),
        subset != Set::<usize>::empty(),
        ks.to_set() == member_keys(keys, subset),
    ensures
        ks.len() >= 1,
        forall|i: int| 0 <= i < ks.len() ==> comma_free(#[trigger] ks[i]),
{
    if forall|q: usize| !subset.contains(q) {
        assert(subset =~= Set::<usize>::empty());
    }
    let q = choose|q: usize| subset.contains(q);
    assert(member_keys(keys, subset).contains(keys[q as int]));
    assert(ks.to_set().contains(keys[q as int]));
    assert forall|i: int| 0 <= i < ks.len() implies comma_free(#[trigger] ks[i]) by {
        assert(ks.to_set().contains(ks[i]));
        assert(member_keys(keys, subset).contains(ks[i]));
        let p = choose|p: usize| subset.contains(p) && p < keys.len() && keys[p as int] == ks[i];
        assert(comma_free(keys[p as int]));
    }
}

/// In a subset construction of an automaton whose state keys hold no comma,
/// every state has a key of its own.
#[verifier::rlimit(60)]
pub proof fn lemma_determinized_keyed(
    edges: Set<Edge>,
    start: usize,
    accept: Set<usize>,
    alphabet: Seq<char>,
    keys: Seq<Seq<char>>,
    subsets: Seq<Set<usize>>,
    d: &Dfa,
)
    requires
        d.wf(),
        determinizes(edges, start, accept, alphabet, subsets, d),
        labelled(keys, subsets, d),
        keys.no_duplicates(),
        comma_free_keys(keys),
        forall|k: int, q: usize|
            0 <= k < subsets.len() && #[trigger] subsets[k].contains(q) ==> q < keys.len(),
    ensures
        d.keyed(),
{
    let labels = labels_of(d.state_properties@);
    let n = subsets.len() as int;
    assert forall|k: int| 0 <= k < n implies #[trigger] subsets[k] != Set::<usize>::empty() by {
        if k == 0 {
            assert(crate::nfa::eps_path(edges, start, start, 0));
            assert(set![start].contains(start));
            assert(crate::nfa::eps_reach(edges, start, start));
            assert(subsets[0].contains(start));
        } else {
            assert(in_discovery_order(d, n, k));
            let (i, a) = choose|i: int, a: int| #[trigger] first_reference(d, n, k, i, a);
            assert(cell_ok(edges, alphabet, subsets, i, a, d.successor(i, a)));
        }
    }
    assert forall|x: int, y: int| 0 <= x < labels.len() && 0 <= y < labels.len() && x
        != y implies labels[x] != labels[y] by {
        if x < n && y < n {
            if labels[x] == labels[y] {
                assert(d.state_properties@[x].label is Some);
                assert(d.state_properties@[y].label is Some);
                lemma_subset_keys_differ(keys, subsets[x], subsets[y], labels[x]);
                if x < y {
                    assert(subsets[x] != subsets[y]);
                } else {
                    assert(subsets[y] != subsets[x]);
                }
            }
        } else if x < n {
            assert(d.state_properties@[x].label is Some);
            lemma_subset_key_is_not_failure(keys, subsets[x], labels[x]);
        } else if y < n {
            assert(d.state_properties@[y].label is Some);
            lemma_subset_key_is_not_failure(keys, subsets[y], labels[y]);
        }
    }
    assert(labels.len() == d.state_properties@.len());
    assert(d.state_properties@.len() == d.state_properties.len());
    lemma_numbered_distinct(labels);
    lemma_indexing_items(key_pairs(d.state_keys), labels);
}


} // verus!
