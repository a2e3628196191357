//! The transition table of a deterministic automaton as text, one row for
//! each state and one column for each character.

use crate::dfa::Dfa;
use crate::text::{chars_of, push_all, push_str, string_of};
use vstd::prelude::*;

verus! {

/// The width of the column that marks the start state.
pub const PREFIX_WIDTH: usize = 4;

/// The width of the column of the state with its mark of acceptance.
pub const STATE_COL_WIDTH: usize = 20;

/// The width of a cell.
pub const CELL_WIDTH: usize = 19;

/// The number of characters of a key that are shown.
pub const CHARS_FOR_KEY: usize = 18;

/// `n` spaces.
pub open spec fn spaces(n: nat) -> Seq<char> {
    Seq::new(n, |i: int| ' ')
}

/// `s`, filled up with spaces on the right to `width` characters.
pub open spec fn padded(s: Seq<char>, width: nat) -> Seq<char> {
    if s.len() >= width {
        s
    } else {
        s + spaces((width - s.len()) as nat)
    }
}

/// The first characters of `key`, as many as are shown.
pub open spec fn shortened(key: Seq<char>) -> Seq<char> {
    if key.len() > CHARS_FOR_KEY {
        key.take(CHARS_FOR_KEY as int)
    } else {
        key
    }
}

/// How a character is shown in the header: the space by a visible sign.
pub open spec fn header_sign(c: char) -> char {
    if c == ' ' {
        '\u{2423}'
    } else {
        c
    }
}

/// The header cells of the columns below `upto`.
pub open spec fn header_cells(d: &Dfa, upto: int) -> Seq<char>
    decreases upto,
{
    if upto <= 0 {
        Seq::<char>::empty()
    } else {
        header_cells(d, upto - 1) + padded(
            seq![header_sign(d.symbols()[upto - 1])],
            CELL_WIDTH as nat,
        )
    }
}

/// The cells of row `src` in the columns below `upto`: the keys of the
/// successors.
pub open spec fn row_cells(d: &Dfa, src: int, upto: int) -> Seq<char>
    decreases upto,
{
    if upto <= 0 {
        Seq::<char>::empty()
    } else {
        row_cells(d, src, upto - 1) + padded(
            shortened(d.keys()[d.successor(src, upto - 1)]),
            CELL_WIDTH as nat,
        )
    }
}

/// The row of state `src`: an arrow if it is the start state, its key with a
/// star if it accepts, and its cells.
pub open spec fn table_row(d: &Dfa, src: int) -> Seq<char> {
    padded(
        if src == d.start_state_idx {
            "--> "@
        } else {
            "    "@
        },
        PREFIX_WIDTH as nat,
    ) + padded(
        shortened(d.keys()[src]) + if d.accept_states@[src] {
            "*"@
        } else {
            ""@
        },
        STATE_COL_WIDTH as nat,
    ) + row_cells(d, src, d.symbols().len() as int) + seq!['\n']
}

/// The rows of the states below `upto`.
pub open spec fn table_rows(d: &Dfa, upto: int) -> Seq<char>
    decreases upto,
{
    if upto <= 0 {
        Seq::<char>::empty()
    } else {
        table_rows(d, upto - 1) + table_row(d, upto - 1)
    }
}

/// The table as text: the name, the header and the rows.
pub open spec fn table_text(d: &Dfa) -> Seq<char> {
    "DFA: "@ + d.name@ + seq!['\n'] + padded(""@, PREFIX_WIDTH as nat) + padded(
        "STATE"@,
        STATE_COL_WIDTH as nat,
    ) + header_cells(d, d.symbols().len() as int) + seq!['\n'] + table_rows(
        d,
        d.num_states() as int,
    )
}

/// Appends `text`, filled up with spaces to `width` characters.
fn push_padded(out: &mut Vec<char>, text: &Vec<char>, width: usize)
    ensures
        final(out)@ == old(out)@ + padded(text@, width as nat),
{
    push_all(out, text);
    let ghost base = out@;
    let mut k: usize = text.len();
    proof {
        assert(out@ =~= base + spaces(0));
    }
    while k < width
        invariant
            text@.len() <= k,
            k <= width || text@.len() >= width,
            text@.len() < width ==> out@ == base + spaces((k - text@.len()) as nat),
            text@.len() >= width ==> out@ == base,
        decreases width - k,
    {
        out.push(' ');
        proof {
            assert(spaces((k + 1 - text@.len()) as nat) =~= spaces((k - text@.len()) as nat).push(
                ' ',
            ));
            assert(out@ =~= base + spaces((k + 1 - text@.len()) as nat));
        }
        k = k + 1;
    }
    proof {
        if text@.len() < width {
            assert(out@ =~= old(out)@ + padded(text@, width as nat));
        } else {
            assert(out@ =~= old(out)@ + padded(text@, width as nat));
        }
    }
}

/// The first characters of `key`, as many as are shown.
fn shorten(key: Vec<char>) -> (short: Vec<char>)
    ensures
        short@ == shortened(key@),
{
    let ghost whole = key@;
    let mut key = key;
    if key.len() > CHARS_FOR_KEY {
        key.truncate(CHARS_FOR_KEY);
        proof {
            assert(key@ =~= shortened(whole));
        }
    }
    key
}

impl Dfa {
    /// The transition table as text for reading: a row for each state with
    /// the keys of its successors, the start state marked by an arrow and
    /// the accepting states by a star.
    #[verifier::rlimit(60)]
    pub fn print_transition_table(&self) -> (text: String)
        requires
            self.wf(),
            self.keyed(),
        ensures
            text@ == table_text(self),
    {
        let n = self.accept_states.len();
        let m = crate::indexing::symbols_len(&self.alphabet);
        proof {
            crate::indexing::lemma_indexing_items(
                crate::indexing::symbol_pairs(self.alphabet),
                self.symbols(),
            );
        }
        let mut out: Vec<char> = Vec::new();
        push_str(&mut out, "DFA: ");
        push_str(&mut out, self.name.as_str());
        out.push('\n');
        let nothing: Vec<char> = Vec::new();
        push_padded(&mut out, &nothing, PREFIX_WIDTH);
        let state = chars_of("STATE");
        push_padded(&mut out, &state, STATE_COL_WIDTH);
        let ghost top = out@;
        proof {
            assert(nothing@ =~= ""@) by {
                reveal_strlit("");
            }
            assert(top =~= "DFA: "@ + self.name@ + seq!['\n'] + padded(""@, PREFIX_WIDTH as nat)
                + padded("STATE"@, STATE_COL_WIDTH as nat));
            assert(out@ =~= top + header_cells(self, 0));
        }
        let mut a: usize = 0;
        while a < m
            invariant
                self.wf(),
                m == self.symbols().len(),
                a <= m,
                out@ == top + header_cells(self, a as int),
            decreases m - a,
        {
            let c = self.symbol_at(a);
            let mut cell: Vec<char> = Vec::new();
            if c == ' ' {
                cell.push('\u{2423}');
            } else {
                cell.push(c);
            }
            proof {
                assert(cell@ =~= seq![header_sign(c)]);
            }
            push_padded(&mut out, &cell, CELL_WIDTH);
            proof {
                assert(out@ =~= top + header_cells(self, a as int + 1));
            }
            a = a + 1;
        }
        out.push('\n');
        let ghost head = out@;
        let mut src_idx: usize = 0;
        proof {
            assert(out@ =~= head + table_rows(self, 0));
        }
        while src_idx < n
            invariant
                self.wf(),
                self.keyed(),
                n == self.num_states(),
                m == self.symbols().len(),
                src_idx <= n,
                out@ == head + table_rows(self, src_idx as int),
            decreases n - src_idx,
        {
            let ghost row_start = out@;
            let prefix = if src_idx == self.start_state_idx {
                chars_of("--> ")
            } else {
                chars_of("    ")
            };
            push_padded(&mut out, &prefix, PREFIX_WIDTH);
            let mut state_display = shorten(self.key_chars(src_idx));
            if self.accept_states[src_idx] {
                state_display.push('*');
                proof {
                    reveal_strlit("*");
                    assert(state_display@ =~= shortened(self.keys()[src_idx as int]) + "*"@);
                }
            } else {
                proof {
                    reveal_strlit("");
                    assert(state_display@ =~= shortened(self.keys()[src_idx as int]) + ""@);
                }
            }
            push_padded(&mut out, &state_display, STATE_COL_WIDTH);
            let ghost left = out@;
            let mut alpha_idx: usize = 0;
            proof {
                assert(out@ =~= left + row_cells(self, src_idx as int, 0));
            }
            while alpha_idx < m
                invariant
                    self.wf(),
                    self.keyed(),
                    n == self.num_states(),
                    m == self.symbols().len(),
                    src_idx < n,
                    alpha_idx <= m,
                    out@ == left + row_cells(self, src_idx as int, alpha_idx as int),
                decreases m - alpha_idx,
            {
                proof {
                    self.lemma_successor_is_state(src_idx as int, alpha_idx as int);
                }
                let table_size = self.transition_table.len();
                let dest_idx = self.transition_table[src_idx * m + alpha_idx];
                let dest_key = shorten(self.key_chars(dest_idx));
                push_padded(&mut out, &dest_key, CELL_WIDTH);
                proof {
                    assert(out@ =~= left + row_cells(self, src_idx as int, alpha_idx as int + 1));
                }
                alpha_idx = alpha_idx + 1;
            }
            out.push('\n');
            proof {
                assert(out@ =~= row_start + table_row(self, src_idx as int));
                assert(out@ =~= head + table_rows(self, src_idx as int + 1));
            }
            src_idx = src_idx + 1;
        }
        proof {
            assert(out@ =~= table_text(self));
        }
        string_of(&out)
    }
}

} // verus!
