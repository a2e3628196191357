//! Rendering: automata as Graphviz DOT text, with the transitions between
//! two states collapsed into one edge whose label lists their characters
//! in compact range notation.

use crate::charset::{lemma_sorted_chars, sorted_chars, CharSet};
use crate::dfa::Dfa;
use crate::indexing::{key_pairs, keys_len, lemma_indexing_items, symbol_pairs};
use crate::nfa::{Edge, Nfa};
use crate::text::{chars_of, join, push_all, push_joined, push_str, string_of, text_views};
use vstd::prelude::*;

verus! {

/// How a character is shown in a label: quotes and backslashes are escaped,
/// and the space, the comma and the dash, which have a meaning in labels,
/// are replaced.
pub open spec fn char_label(c: char) -> Seq<char> {
    if c == '"' {
        seq!['\\', '"']
    } else if c == '\\' {
        seq!['\\', '\\']
    } else if c == ' ' {
        seq!['\u{2423}']
    } else if c == ',' {
        "[comma]"@
    } else if c == '-' {
        "[dash]"@
    } else {
        seq![c]
    }
}

/// The last place of the run of consecutive code points that starts at
/// place `i` of `s`.
pub open spec fn run_end(s: Seq<char>, i: int) -> int
    decreases s.len() - i,
{
    if 0 <= i && i + 1 < s.len() && s[i + 1] as int == s[i] as int + 1 {
        run_end(s, i + 1)
    } else {
        i
    }
}

/// How the run from `first` to `last` is shown: a single character, two
/// neighbours one by one, or the ends of a longer run around a dash.
pub open spec fn run_parts(first: char, last: char) -> Seq<Seq<char>> {
    if first == last {
        seq![char_label(first)]
    } else if last as int == first as int + 1 {
        seq![char_label(first), char_label(last)]
    } else {
        seq![char_label(first) + seq!['-'] + char_label(last)]
    }
}

/// The parts that show the runs of `s` from place `i` on.
pub open spec fn set_parts(s: Seq<char>, i: int) -> Seq<Seq<char>>
    decreases s.len() - i,
{
    if i < 0 || i >= s.len() {
        Seq::<Seq<char>>::empty()
    } else {
        let e = run_end(s, i);
        if i <= e < s.len() {
            run_parts(s[i], s[e]) + set_parts(s, e + 1)
        } else {
            Seq::<Seq<char>>::empty()
        }
    }
}

/// The label of the ascending characters `s`: their runs, separated by a
/// comma and a space; a single space where there is no character.
pub open spec fn sorted_label(s: Seq<char>) -> Seq<char> {
    if s.len() == 0 {
        seq![' ']
    } else {
        join(set_parts(s, 0), seq![',', ' '])
    }
}

/// The label of a set of characters in compact range notation.
pub open spec fn char_set_label(chars: Set<char>) -> Seq<char> {
    sorted_label(sorted_chars(chars))
}

/// The characters that show `c` in a label.
fn label_chars(c: char) -> (out: Vec<char>)
    ensures
        out@ == char_label(c),
{
    let mut out: Vec<char> = Vec::new();
    if c == '"' {
        out.push('\\');
        out.push('"');
        proof {
            assert(out@ =~= seq!['\\', '"']);
        }
    } else if c == '\\' {
        out.push('\\');
        out.push('\\');
        proof {
            assert(out@ =~= seq!['\\', '\\']);
        }
    } else if c == ' ' {
        out.push('\u{2423}');
        proof {
            assert(out@ =~= seq!['\u{2423}']);
        }
    } else if c == ',' {
        push_str(&mut out, "[comma]");
        proof {
            assert(out@ =~= "[comma]"@);
        }
    } else if c == '-' {
        push_str(&mut out, "[dash]");
        proof {
            assert(out@ =~= "[dash]"@);
        }
    } else {
        out.push(c);
        proof {
            assert(out@ =~= seq![c]);
        }
    }
    out
}

/// Formats a single character for display in a label.
pub fn format_char(c: char) -> (s: String)
    ensures
        s@ == char_label(c),
{
    let out = label_chars(c);
    string_of(&out)
}

/// The characters of the label of `chars`.
#[verifier::rlimit(60)]
pub fn set_label_chars(chars: &CharSet) -> (out: Vec<char>)
    requires
        chars.wf(),
    ensures
        out@ == char_set_label(chars@),
{
    proof {
        lemma_sorted_chars(chars);
        chars.lemma_seq();
    }
    let ghost s = chars.seq();
    let n = chars.len();
    let mut out: Vec<char> = Vec::new();
    if n == 0 {
        out.push(' ');
        proof {
            assert(out@ =~= seq![' ']);
        }
        return out;
    }
    let mut parts: Vec<Vec<char>> = Vec::new();
    let mut i: usize = 0;
    proof {
        assert(text_views(parts@) + set_parts(s, 0) =~= set_parts(s, 0));
    }
    while i < n
        invariant
            chars.wf(),
            s == chars.seq(),
            n == s.len(),
            i <= n,
            text_views(parts@) + set_parts(s, i as int) == set_parts(s, 0),
        decreases n - i,
    {
        let start = chars.get(i);
        let mut e: usize = i;
        while e + 1 < n && (chars.get(e + 1) as u32) == (chars.get(e) as u32) + 1
            invariant
                chars.wf(),
                s == chars.seq(),
                n == s.len(),
                i <= e < n,
                run_end(s, e as int) == run_end(s, i as int),
            decreases n - e,
        {
            e = e + 1;
        }
        let end = chars.get(e);
        let ghost before = text_views(parts@);
        if start == end {
            parts.push(label_chars(start));
            proof {
                assert(text_views(parts@) =~= before + run_parts(start, end));
            }
        } else if (end as u32) == (start as u32) + 1 {
            parts.push(label_chars(start));
            parts.push(label_chars(end));
            proof {
                assert(text_views(parts@) =~= before + run_parts(start, end));
            }
        } else {
            let mut piece = label_chars(start);
            piece.push('-');
            let last = label_chars(end);
            crate::text::push_all(&mut piece, &last);
            parts.push(piece);
            proof {
                assert(piece@ =~= char_label(start) + seq!['-'] + char_label(end));
                assert(text_views(parts@) =~= before + run_parts(start, end));
            }
        }
        proof {
            assert(run_end(s, i as int) == e);
            assert(set_parts(s, i as int) == run_parts(start, end) + set_parts(s, e as int + 1));
            assert(text_views(parts@) + set_parts(s, e as int + 1) =~= before + set_parts(
                s,
                i as int,
            ));
        }
        i = e + 1;
    }
    let mut sep: Vec<char> = Vec::new();
    sep.push(',');
    sep.push(' ');
    push_joined(&mut out, &parts, &sep);
    proof {
        assert(sep@ =~= seq![',', ' ']);
        assert(text_views(parts@) + set_parts(s, n as int) =~= text_views(parts@));
        assert(out@ =~= join(text_views(parts@), sep@));
    }
    out
}

/// Formats a set of characters as a compact label, such as `a-c, z, 0-9`.
pub fn format_char_set(chars: &CharSet) -> (s: String)
    requires
        chars.wf(),
    ensures
        s@ == char_set_label(chars@),
{
    let out = set_label_chars(chars);
    string_of(&out)
}

/// `s` with a backslash before each double quote.
pub open spec fn escape_quotes(s: Seq<char>) -> Seq<char>
    decreases s.len(),
{
    if s.len() == 0 {
        s
    } else if s.last() == '"' {
        escape_quotes(s.drop_last()) + seq!['\\', '"']
    } else {
        escape_quotes(s.drop_last()).push(s.last())
    }
}

/// `s` with each line break replaced by a backslash and the letter `n`.
pub open spec fn escape_breaks(s: Seq<char>) -> Seq<char>
    decreases s.len(),
{
    if s.len() == 0 {
        s
    } else if s.last() == '\n' {
        escape_breaks(s.drop_last()) + seq!['\\', 'n']
    } else {
        escape_breaks(s.drop_last()).push(s.last())
    }
}

/// Appends `chars` with its double quotes escaped.
fn push_escaped(out: &mut Vec<char>, chars: &Vec<char>)
    ensures
        final(out)@ == old(out)@ + escape_quotes(chars@),
{
    let mut i: usize = 0;
    proof {
        assert(out@ =~= old(out)@ + escape_quotes(chars@.take(0)));
    }
    while i < chars.len()
        invariant
            i <= chars@.len(),
            out@ == old(out)@ + escape_quotes(chars@.take(i as int)),
        decreases chars@.len() - i,
    {
        let c = chars[i];
        proof {
            assert(chars@.take(i as int + 1).drop_last() =~= chars@.take(i as int));
            assert(chars@.take(i as int + 1).last() == c);
        }
        let ghost before = out@;
        if c == '"' {
            out.push('\\');
            out.push('"');
            proof {
                assert(out@ =~= before + seq!['\\', '"']);
                assert(out@ =~= old(out)@ + escape_quotes(chars@.take(i as int + 1)));
            }
        } else {
            out.push(c);
            proof {
                assert(out@ =~= old(out)@ + escape_quotes(chars@.take(i as int + 1)));
            }
        }
        i = i + 1;
    }
    proof {
        assert(chars@.take(i as int) =~= chars@);
    }
}

/// `chars` with its line breaks escaped.
fn breaks_escaped(chars: &Vec<char>) -> (out: Vec<char>)
    ensures
        out@ == escape_breaks(chars@),
{
    let mut out: Vec<char> = Vec::new();
    let mut i: usize = 0;
    proof {
        assert(out@ =~= escape_breaks(chars@.take(0)));
    }
    while i < chars.len()
        invariant
            i <= chars@.len(),
            out@ == escape_breaks(chars@.take(i as int)),
        decreases chars@.len() - i,
    {
        let c = chars[i];
        proof {
            assert(chars@.take(i as int + 1).drop_last() =~= chars@.take(i as int));
            assert(chars@.take(i as int + 1).last() == c);
        }
        let ghost before = out@;
        if c == '\n' {
            out.push('\\');
            out.push('n');
            proof {
                assert(out@ =~= before + seq!['\\', 'n']);
            }
        } else {
            out.push(c);
        }
        i = i + 1;
    }
    proof {
        assert(chars@.take(i as int) =~= chars@);
    }
    out
}

/// The lines that open a graph named `name` and captioned `caption`.
pub open spec fn dot_header(name: Seq<char>, caption: Seq<char>) -> Seq<char> {
    "digraph \""@ + escape_quotes(name) + "\" {\n"@ + "    rankdir=LR;\n"@ + "    label=\""@
        + escape_breaks(escape_quotes(caption)) + "\";\n"@ + "    node [shape=circle];\n"@
        + "    __start [shape=none, label=\"\"];\n"@
}

/// The line of a node with the key `key`, shown as `label`, with a double
/// circle where it accepts.
pub open spec fn node_line(key: Seq<char>, label: Seq<char>, accept: bool) -> Seq<char> {
    "    \""@ + escape_quotes(key) + "\" [label=\""@ + escape_quotes(label) + "\", shape="@ + (
    if accept {
        "doublecircle"@
    } else {
        "circle"@
    }) + "];\n"@
}

/// The line of the arrow that marks the start state.
pub open spec fn start_line(key: Seq<char>) -> Seq<char> {
    "    __start -> \""@ + escape_quotes(key) + "\";\n"@
}

/// The line of an edge from `src` to `dest` with the label `label`.
pub open spec fn edge_line(src: Seq<char>, dest: Seq<char>, label: Seq<char>) -> Seq<char> {
    "    \""@ + escape_quotes(src) + "\" -> \""@ + escape_quotes(dest) + "\" [label=\""@
        + escape_quotes(label) + "\"];\n"@
}

/// Appends the opening lines of a graph.
fn push_header(out: &mut Vec<char>, name: &Vec<char>, caption: &Vec<char>)
    ensures
        final(out)@ == old(out)@ + dot_header(name@, caption@),
{
    push_str(out, "digraph \"");
    push_escaped(out, name);
    push_str(out, "\" {\n");
    push_str(out, "    rankdir=LR;\n");
    push_str(out, "    label=\"");
    let mut quoted: Vec<char> = Vec::new();
    push_escaped(&mut quoted, caption);
    proof {
        assert(quoted@ =~= escape_quotes(caption@));
    }
    let shown = breaks_escaped(&quoted);
    push_all(out, &shown);
    push_str(out, "\";\n");
    push_str(out, "    node [shape=circle];\n");
    push_str(out, "    __start [shape=none, label=\"\"];\n");
    proof {
        assert(out@ =~= old(out)@ + dot_header(name@, caption@));
    }
}

/// Appends the line of a node.
fn push_node(out: &mut Vec<char>, key: &Vec<char>, label: &Vec<char>, accept: bool)
    ensures
        final(out)@ == old(out)@ + node_line(key@, label@, accept),
{
    push_str(out, "    \"");
    push_escaped(out, key);
    push_str(out, "\" [label=\"");
    push_escaped(out, label);
    push_str(out, "\", shape=");
    if accept {
        push_str(out, "doublecircle");
    } else {
        push_str(out, "circle");
    }
    push_str(out, "];\n");
    proof {
        assert(out@ =~= old(out)@ + node_line(key@, label@, accept));
    }
}

/// Appends the line of the start arrow.
fn push_start(out: &mut Vec<char>, key: &Vec<char>)
    ensures
        final(out)@ == old(out)@ + start_line(key@),
{
    push_str(out, "    __start -> \"");
    push_escaped(out, key);
    push_str(out, "\";\n");
    proof {
        assert(out@ =~= old(out)@ + start_line(key@));
    }
}

/// Appends the line of an edge.
fn push_edge(out: &mut Vec<char>, src: &Vec<char>, dest: &Vec<char>, label: &Vec<char>)
    ensures
        final(out)@ == old(out)@ + edge_line(src@, dest@, label@),
{
    push_str(out, "    \"");
    push_escaped(out, src);
    push_str(out, "\" -> \"");
    push_escaped(out, dest);
    push_str(out, "\" [label=\"");
    push_escaped(out, label);
    push_str(out, "\"];\n");
    proof {
        assert(out@ =~= old(out)@ + edge_line(src@, dest@, label@));
    }
}

/// The characters on which state `src` of `d` goes to state `dest`.
pub open spec fn symbols_to(d: &Dfa, src: int, dest: int) -> Set<char> {
    Set::new(
        |c: char| d.in_alphabet(c) && d.successor(src, symbol_pairs(d.alphabet)[c] as int) == dest,
    )
}

/// What is shown in the node of state `q`: its label, or its key where it
/// has no label.
pub open spec fn shown_label(d: &Dfa, q: int) -> Seq<char> {
    match d.state_properties@[q].label {
        Some(l) => l@,
        None => d.keys()[q],
    }
}

/// The lines of the nodes of the states below `upto`.
pub open spec fn dfa_nodes(d: &Dfa, upto: int) -> Seq<char>
    decreases upto,
{
    if upto <= 0 {
        Seq::<char>::empty()
    } else {
        dfa_nodes(d, upto - 1) + node_line(
            d.keys()[upto - 1],
            shown_label(d, upto - 1),
            d.accept_states@[upto - 1],
        )
    }
}

/// The line of the edge from `src` to `dest`, if a character leads from the
/// one to the other.
pub open spec fn dfa_edge(d: &Dfa, src: int, dest: int) -> Seq<char> {
    if symbols_to(d, src, dest) == Set::<char>::empty() {
        Seq::<char>::empty()
    } else {
        edge_line(d.keys()[src], d.keys()[dest], char_set_label(symbols_to(d, src, dest)))
    }
}

/// The lines of the edges from `src` to the states below `upto`.
pub open spec fn dfa_row_edges(d: &Dfa, src: int, upto: int) -> Seq<char>
    decreases upto,
{
    if upto <= 0 {
        Seq::<char>::empty()
    } else {
        dfa_row_edges(d, src, upto - 1) + dfa_edge(d, src, upto - 1)
    }
}

/// The lines of the edges from the states below `upto`.
pub open spec fn dfa_edges(d: &Dfa, upto: int) -> Seq<char>
    decreases upto,
{
    if upto <= 0 {
        Seq::<char>::empty()
    } else {
        dfa_edges(d, upto - 1) + dfa_row_edges(d, upto - 1, d.num_states() as int)
    }
}

/// The caption of a graph: the description, or the name where there is
/// none.
pub open spec fn caption(name: Seq<char>, description: Option<Seq<char>>) -> Seq<char> {
    match description {
        Some(text) => text,
        None => name,
    }
}

/// The DOT text of a deterministic automaton: the header, a node for each
/// state in the order of the indices, the start arrow, and an edge for each
/// pair of states joined by a transition, by source and then by target.
pub open spec fn dfa_dot(d: &Dfa) -> Seq<char> {
    dot_header(d.name@, caption(d.name@, crate::parser::option_text(d.description))) + dfa_nodes(
        d,
        d.num_states() as int,
    ) + start_line(d.keys()[d.start_state_idx as int]) + dfa_edges(d, d.num_states() as int)
        + "}\n"@
}

/// The characters on which state `src` goes to state `dest`.
#[verifier::rlimit(60)]
fn chars_between_states(fsm: &Dfa, src: usize, dest: usize) -> (chars: CharSet)
    requires
        fsm.wf(),
        src < fsm.num_states(),
    ensures
        chars.wf(),
        chars@ == symbols_to(fsm, src as int, dest as int),
{
    let ghost pairs = symbol_pairs(fsm.alphabet);
    let ghost symbols = fsm.symbols();
    let m = crate::indexing::symbols_len(&fsm.alphabet);
    let mut chars = CharSet::new();
    let mut a: usize = 0;
    proof {
        lemma_indexing_items(pairs, symbols);
    }
    while a < m
        invariant
            fsm.wf(),
            src < fsm.num_states(),
            pairs == symbol_pairs(fsm.alphabet),
            symbols == fsm.symbols(),
            m == symbols.len(),
            a <= m,
            chars.wf(),
            chars@ == Set::new(
                |c: char|
                    fsm.in_alphabet(c) && pairs[c] < a && fsm.successor(src as int, pairs[c] as int)
                        == dest,
            ),
        decreases m - a,
    {
        proof {
            fsm.lemma_successor_is_state(src as int, a as int);
            lemma_indexing_items(pairs, symbols);
        }
        let ghost before = chars@;
        let table_size = fsm.transition_table.len();
        let target = fsm.transition_table[src * m + a];
        let c = fsm.symbol_at(a);
        if target == dest {
            chars.insert(c);
        }
        proof {
            assert(symbols.to_set().contains(c));
            assert(pairs[c] == a);
            assert forall|x: char|
                chars@.contains(x) <==> (fsm.in_alphabet(x) && pairs[x] < a + 1 && fsm.successor(
                    src as int,
                    pairs[x] as int,
                ) == dest) by {
                if fsm.in_alphabet(x) && pairs[x] == a {
                    assert(symbols[pairs[x] as int] == x);
                }
            }
            assert(chars@ =~= Set::new(
                |x: char|
                    fsm.in_alphabet(x) && pairs[x] < a + 1 && fsm.successor(
                        src as int,
                        pairs[x] as int,
                    ) == dest,
            ));
        }
        a = a + 1;
    }
    proof {
        assert(chars@ =~= symbols_to(fsm, src as int, dest as int));
    }
    chars
}

/// Generates the Graphviz DOT text of a deterministic automaton.
#[verifier::rlimit(60)]
pub fn make_dot(fsm: &Dfa) -> (dot: String)
    requires
        fsm.wf(),
        fsm.keyed(),
    ensures
        dot@ == dfa_dot(fsm),
{
    let n = fsm.accept_states.len();
    let mut out: Vec<char> = Vec::new();
    let name = chars_of(fsm.name.as_str());
    let caption = match &fsm.description {
        Some(text) => chars_of(text.as_str()),
        None => chars_of(fsm.name.as_str()),
    };
    push_header(&mut out, &name, &caption);
    let ghost header = out@;
    let mut idx: usize = 0;
    proof {
        assert(out@ =~= header + dfa_nodes(fsm, 0));
    }
    while idx < n
        invariant
            fsm.wf(),
            fsm.keyed(),
            n == fsm.num_states(),
            idx <= n,
            out@ == header + dfa_nodes(fsm, idx as int),
        decreases n - idx,
    {
        let state_key = fsm.key_chars(idx);
        let label = match &fsm.state_properties[idx].label {
            Some(l) => chars_of(l.as_str()),
            None => fsm.key_chars(idx),
        };
        push_node(&mut out, &state_key, &label, fsm.accept_states[idx]);
        proof {
            assert(out@ =~= header + dfa_nodes(fsm, idx as int + 1));
        }
        idx = idx + 1;
    }
    let start_key = fsm.key_chars(fsm.start_state_idx);
    push_start(&mut out, &start_key);
    let ghost upper = out@;
    let mut src: usize = 0;
    proof {
        assert(out@ =~= upper + dfa_edges(fsm, 0));
    }
    while src < n
        invariant
            fsm.wf(),
            fsm.keyed(),
            n == fsm.num_states(),
            src <= n,
            out@ == upper + dfa_edges(fsm, src as int),
        decreases n - src,
    {
        let ghost row_start = out@;
        let src_key = fsm.key_chars(src);
        let mut dest: usize = 0;
        proof {
            assert(out@ =~= row_start + dfa_row_edges(fsm, src as int, 0));
        }
        while dest < n
            invariant
                fsm.wf(),
                fsm.keyed(),
                n == fsm.num_states(),
                src < n,
                dest <= n,
                src_key@ == fsm.keys()[src as int],
                out@ == row_start + dfa_row_edges(fsm, src as int, dest as int),
            decreases n - dest,
        {
            let chars = chars_between_states(fsm, src, dest);
            if !chars.is_empty() {
                let dest_key = fsm.key_chars(dest);
                let label = set_label_chars(&chars);
                push_edge(&mut out, &src_key, &dest_key, &label);
            }
            proof {
                assert(out@ =~= row_start + dfa_row_edges(fsm, src as int, dest as int + 1));
            }
            dest = dest + 1;
        }
        proof {
            assert(out@ =~= upper + dfa_edges(fsm, src as int + 1));
        }
        src = src + 1;
    }
    push_str(&mut out, "}\n");
    proof {
        assert(out@ =~= dfa_dot(fsm));
    }
    string_of(&out)
}


/// The characters on which a transition of `edges` leads from `src` to
/// `dest`.
pub open spec fn chars_on(edges: Set<Edge>, src: usize, dest: usize) -> Set<char> {
    Set::new(|c: char| edges.contains((src, Some(c), dest)))
}

/// The label of the edge from `src` to `dest`: the characters in compact
/// notation and, for an epsilon move, the letter epsilon after them.
pub open spec fn nfa_edge_label(edges: Set<Edge>, src: usize, dest: usize) -> Seq<char> {
    let chars = chars_on(edges, src, dest);
    let silent = edges.contains((src, None::<char>, dest));
    if chars == Set::<char>::empty() {
        seq!['\u{3b5}']
    } else if silent {
        char_set_label(chars) + seq![',', ' '] + seq!['\u{3b5}']
    } else {
        char_set_label(chars)
    }
}

/// The line of the edge from `src` to `dest`, if a transition leads from
/// the one to the other.
pub open spec fn nfa_edge(nfa: &Nfa, src: usize, dest: usize) -> Seq<char> {
    if chars_on(nfa.edges(), src, dest) == Set::<char>::empty() && !nfa.edges().contains(
        (src, None::<char>, dest),
    ) {
        Seq::<char>::empty()
    } else {
        edge_line(
            nfa.keys()[src as int],
            nfa.keys()[dest as int],
            nfa_edge_label(nfa.edges(), src, dest),
        )
    }
}

/// The lines of the edges from `src` to the states below `upto`.
pub open spec fn nfa_row_edges(nfa: &Nfa, src: usize, upto: int) -> Seq<char>
    decreases upto,
{
    if upto <= 0 {
        Seq::<char>::empty()
    } else {
        nfa_row_edges(nfa, src, upto - 1) + nfa_edge(nfa, src, (upto - 1) as usize)
    }
}

/// The lines of the edges from the states below `upto`.
pub open spec fn nfa_edges(nfa: &Nfa, upto: int) -> Seq<char>
    decreases upto,
{
    if upto <= 0 {
        Seq::<char>::empty()
    } else {
        nfa_edges(nfa, upto - 1) + nfa_row_edges(
            nfa,
            (upto - 1) as usize,
            nfa.num_states() as int,
        )
    }
}

/// The lines of the nodes of the states below `upto`, each shown by its key.
pub open spec fn nfa_nodes(nfa: &Nfa, upto: int) -> Seq<char>
    decreases upto,
{
    if upto <= 0 {
        Seq::<char>::empty()
    } else {
        nfa_nodes(nfa, upto - 1) + node_line(
            nfa.keys()[upto - 1],
            nfa.keys()[upto - 1],
            nfa.nfa_accept_states@.contains((upto - 1) as usize),
        )
    }
}

/// The DOT text of a nondeterministic automaton: the header, a node for
/// each state in the order of the indices, the start arrow, and an edge for
/// each pair of states joined by a transition, by source and then by target.
pub open spec fn nfa_dot(nfa: &Nfa, name: Seq<char>, description: Option<Seq<char>>) -> Seq<char> {
    dot_header(name, caption(name, description)) + nfa_nodes(nfa, nfa.num_states() as int)
        + start_line(nfa.keys()[nfa.start_state as int]) + nfa_edges(
        nfa,
        nfa.num_states() as int,
    ) + "}\n"@
}

/// The text of an optional string slice.
pub open spec fn slice_text(o: Option<&str>) -> Option<Seq<char>> {
    match o {
        Some(s) => Some(s@),
        None => None,
    }
}

/// The characters on which a transition leads from `src` to `dest`, and
/// whether an epsilon move does.
fn triggers_between(nfa: &Nfa, src: usize, dest: usize) -> (found: (CharSet, bool))
    ensures
        found.0.wf(),
        found.0@ == chars_on(nfa.edges(), src, dest),
        found.1 == nfa.edges().contains((src, None::<char>, dest)),
{
    let mut chars = CharSet::new();
    let mut silent = false;
    let mut i: usize = 0;
    proof {
        assert(chars@ =~= chars_on(nfa.transitions@.take(0).to_set(), src, dest));
    }
    while i < nfa.transitions.len()
        invariant
            i <= nfa.transitions@.len(),
            chars.wf(),
            chars@ == chars_on(nfa.transitions@.take(i as int).to_set(), src, dest),
            silent == nfa.transitions@.take(i as int).to_set().contains((src, None::<char>, dest)),
        decreases nfa.transitions@.len() - i,
    {
        let (from, on, to) = nfa.transitions[i];
        let ghost seen = nfa.transitions@.take(i as int);
        let ghost more = nfa.transitions@.take(i as int + 1);
        proof {
            assert(more =~= seen.push(nfa.transitions@[i as int]));
            seen.lemma_push_to_set_commute(nfa.transitions@[i as int]);
        }
        if from == src && to == dest {
            match on {
                Some(c) => {
                    chars.insert(c);
                },
                None => {
                    silent = true;
                },
            }
        }
        proof {
            assert(chars@ =~= chars_on(more.to_set(), src, dest));
        }
        i = i + 1;
    }
    proof {
        assert(nfa.transitions@.take(i as int) =~= nfa.transitions@);
    }
    (chars, silent)
}

/// Generates the Graphviz DOT text of a nondeterministic automaton under
/// the name `fsm_name`, captioned with `description` if there is one.
#[verifier::rlimit(60)]
pub fn make_nfa_dot(nfa: &Nfa, fsm_name: &str, description: Option<&str>) -> (dot: String)
    requires
        nfa.wf(),
    ensures
        dot@ == nfa_dot(nfa, fsm_name@, slice_text(description)),
{
    proof {
        lemma_indexing_items(key_pairs(nfa.nfa_state_keys), nfa.keys());
    }
    let n = keys_len(&nfa.nfa_state_keys);
    let mut out: Vec<char> = Vec::new();
    let name = chars_of(fsm_name);
    let caption = match description {
        Some(text) => chars_of(text),
        None => chars_of(fsm_name),
    };
    push_header(&mut out, &name, &caption);
    let ghost header = out@;
    let mut idx: usize = 0;
    proof {
        assert(out@ =~= header + nfa_nodes(nfa, 0));
    }
    while idx < n
        invariant
            nfa.wf(),
            n == nfa.num_states(),
            idx <= n,
            out@ == header + nfa_nodes(nfa, idx as int),
        decreases n - idx,
    {
        let state_key = nfa.key_chars(idx);
        let accept = nfa.nfa_accept_states.contains(idx);
        push_node(&mut out, &state_key, &state_key, accept);
        proof {
            assert(out@ =~= header + nfa_nodes(nfa, idx as int + 1));
        }
        idx = idx + 1;
    }
    let start_key = nfa.key_chars(nfa.start_state);
    push_start(&mut out, &start_key);
    let ghost upper = out@;
    let mut src: usize = 0;
    proof {
        assert(out@ =~= upper + nfa_edges(nfa, 0));
    }
    while src < n
        invariant
            nfa.wf(),
            n == nfa.num_states(),
            src <= n,
            out@ == upper + nfa_edges(nfa, src as int),
        decreases n - src,
    {
        let ghost row_start = out@;
        let src_key = nfa.key_chars(src);
        let mut dest: usize = 0;
        proof {
            assert(out@ =~= row_start + nfa_row_edges(nfa, src, 0));
        }
        while dest < n
            invariant
                nfa.wf(),
                n == nfa.num_states(),
                src < n,
                dest <= n,
                src_key@ == nfa.keys()[src as int],
                out@ == row_start + nfa_row_edges(nfa, src, dest as int),
            decreases n - dest,
        {
            let (chars, silent) = triggers_between(nfa, src, dest);
            let some_chars = !chars.is_empty();
            if some_chars || silent {
                let dest_key = nfa.key_chars(dest);
                let mut label: Vec<char> = Vec::new();
                if some_chars {
                    label = set_label_chars(&chars);
                    if silent {
                        label.push(',');
                        label.push(' ');
                    }
                }
                if silent {
                    label.push('\u{3b5}');
                }
                proof {
                    assert(label@ =~= nfa_edge_label(nfa.edges(), src, dest));
                }
                push_edge(&mut out, &src_key, &dest_key, &label);
            }
            proof {
                assert(out@ =~= row_start + nfa_row_edges(nfa, src, dest as int + 1));
            }
            dest = dest + 1;
        }
        proof {
            assert(out@ =~= upper + nfa_edges(nfa, src as int + 1));
        }
        src = src + 1;
    }
    push_str(&mut out, "}\n");
    proof {
        assert(out@ =~= nfa_dot(nfa, fsm_name@, slice_text(description)));
    }
    string_of(&out)
}


} // verus!
