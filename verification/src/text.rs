//! Texts as sequences of characters: conversion from and to strings, the
//! lexicographic order, sorting, joining and decimal numerals.

use vstd::prelude::*;

verus! {

/// `String::push` appends the character to the end of the string.
pub assume_specification[ String::push ](s: &mut String, c: char)
    ensures
        final(s)@ == old(s)@.push(c),
;

/// The characters of `s`.
pub fn chars_of(s: &str) -> (chars: Vec<char>)
    ensures
        chars@ == s@,
{
    let mut chars: Vec<char> = Vec::new();
    for c in it: s.chars()
        invariant
            it.seq() == s@,
            chars@ == s@.take(it.index() as int),
    {
        proof {
            assert(s@.take(it.index() as int + 1) =~= s@.take(it.index() as int).push(c));
        }
        chars.push(c);
    }
    proof {
        assert(s@.take(s@.len() as int) =~= s@);
    }
    chars
}

/// Appends `chars` to `s`.
pub fn push_chars(s: &mut String, chars: &Vec<char>)
    ensures
        final(s)@ == old(s)@ + chars@,
{
    let mut i: usize = 0;
    proof {
        assert(s@ =~= old(s)@ + chars@.take(0));
    }
    while i < chars.len()
        invariant
            i <= chars@.len(),
            s@ == old(s)@ + chars@.take(i as int),
        decreases chars@.len() - i,
    {
        s.push(chars[i]);
        proof {
            assert(chars@.take(i as int + 1) =~= chars@.take(i as int).push(chars@[i as int]));
            assert(s@ =~= old(s)@ + chars@.take(i as int + 1));
        }
        i = i + 1;
    }
    proof {
        assert(chars@.take(i as int) =~= chars@);
    }
}

/// The string that holds `chars`.
pub fn string_of(chars: &Vec<char>) -> (s: String)
    ensures
        s@ == chars@,
{
    let mut s = String::new();
    push_chars(&mut s, chars);
    proof {
        assert(Seq::<char>::empty() + chars@ =~= chars@);
    }
    s
}

/// Whether `a` comes before `b` in the lexicographic order by code point,
/// which is the order of strings.
pub open spec fn text_lt(a: Seq<char>, b: Seq<char>) -> bool
    decreases a.len(),
{
    if b.len() == 0 {
        false
    } else if a.len() == 0 {
        true
    } else if a[0] != b[0] {
        a[0] < b[0]
    } else {
        text_lt(a.drop_first(), b.drop_first())
    }
}

/// No text comes before itself.
pub proof fn lemma_text_lt_irreflexive(a: Seq<char>)
    ensures
        !text_lt(a, a),
    decreases a.len(),
{
    if a.len() > 0 {
        lemma_text_lt_irreflexive(a.drop_first());
    }
}

/// The order of texts is transitive.
pub proof fn lemma_text_lt_transitive(a: Seq<char>, b: Seq<char>, c: Seq<char>)
    requires
        text_lt(a, b),
        text_lt(b, c),
    ensures
        text_lt(a, c),
    decreases a.len(),
{
    if a.len() > 0 && b.len() > 0 && c.len() > 0 {
        if a[0] == b[0] && b[0] == c[0] {
            lemma_text_lt_transitive(a.drop_first(), b.drop_first(), c.drop_first());
        }
    }
}

/// Of two different texts one comes before the other.
pub proof fn lemma_text_lt_total(a: Seq<char>, b: Seq<char>)
    ensures
        text_lt(a, b) || text_lt(b, a) || a == b,
    decreases a.len(),
{
    if a.len() > 0 && b.len() > 0 {
        if a[0] == b[0] {
            lemma_text_lt_total(a.drop_first(), b.drop_first());
            if a.drop_first() == b.drop_first() {
                assert(a =~= seq![a[0]] + a.drop_first());
                assert(b =~= seq![b[0]] + b.drop_first());
            }
        }
    } else if a.len() == 0 && b.len() == 0 {
        assert(a =~= b);
    }
}

/// Whether `a` comes before `b` in the order of texts.
pub fn text_less(a: &Vec<char>, b: &Vec<char>) -> (less: bool)
    ensures
        less == text_lt(a@, b@),
{
    let mut i: usize = 0;
    proof {
        assert(a@.skip(0) =~= a@);
        assert(b@.skip(0) =~= b@);
    }
    while i < a.len() && i < b.len()
        invariant
            i <= a@.len(),
            i <= b@.len(),
            text_lt(a@, b@) == text_lt(a@.skip(i as int), b@.skip(i as int)),
        decreases a@.len() - i,
    {
        proof {
            assert(a@.skip(i as int)[0] == a@[i as int]);
            assert(b@.skip(i as int)[0] == b@[i as int]);
            assert(a@.skip(i as int).drop_first() =~= a@.skip(i as int + 1));
            assert(b@.skip(i as int).drop_first() =~= b@.skip(i as int + 1));
        }
        if a[i] != b[i] {
            return a[i] < b[i];
        }
        i = i + 1;
    }
    i < b.len()
}

/// The texts that the members of `items` hold.
pub open spec fn text_views(items: Seq<Vec<char>>) -> Seq<Seq<char>> {
    items.map_values(|t: Vec<char>| t@)
}

/// Whether the texts of `ks` strictly ascend.
pub open spec fn texts_ascending(ks: Seq<Seq<char>>) -> bool {
    forall|i: int, j: int| 0 <= i < j < ks.len() ==> text_lt(#[trigger] ks[i], #[trigger] ks[j])
}

/// Two strictly ascending sequences of texts with the same members are
/// equal.
pub proof fn lemma_ascending_unique(a: Seq<Seq<char>>, b: Seq<Seq<char>>)
    requires
        texts_ascending(a),
        texts_ascending(b),
        a.to_set() == b.to_set(),
    ensures
        a == b,
    decreases a.len(),
{
    if a.len() == 0 {
        if b.len() > 0 {
            assert(b.to_set().contains(b[0]));
            assert(a.to_set().contains(b[0]));
        }
        assert(a =~= b);
    } else {
        let x = a.last();
        assert(a.to_set().contains(x));
        assert(b.to_set().contains(x));
        let k = choose|k: int| 0 <= k < b.len() && b[k] == x;
        if k != b.len() - 1 {
            let y = b.last();
            assert(b.to_set().contains(y));
            assert(a.to_set().contains(y));
            let m = choose|m: int| 0 <= m < a.len() && a[m] == y;
            assert(text_lt(b[k], b[b.len() - 1]));
            if m < a.len() - 1 {
                assert(text_lt(a[m], a[a.len() - 1]));
                lemma_text_lt_transitive(x, y, x);
            }
            lemma_text_lt_irreflexive(x);
        }
        let a0 = a.drop_last();
        let b0 = b.drop_last();
        assert forall|c: Seq<char>| a0.to_set().contains(c) <==> b0.to_set().contains(c) by {
            lemma_text_lt_irreflexive(x);
            if a0.to_set().contains(c) {
                let i = choose|i: int| 0 <= i < a0.len() && a0[i] == c;
                assert(a[i] == c);
                assert(text_lt(a[i], a[a.len() - 1]));
                assert(a.to_set().contains(c));
                assert(b.to_set().contains(c));
                let j = choose|j: int| 0 <= j < b.len() && b[j] == c;
                assert(b0[j] == c);
            }
            if b0.to_set().contains(c) {
                let i = choose|i: int| 0 <= i < b0.len() && b0[i] == c;
                assert(b[i] == c);
                assert(text_lt(b[i], b[b.len() - 1]));
                assert(b.to_set().contains(c));
                assert(a.to_set().contains(c));
                let j = choose|j: int| 0 <= j < a.len() && a[j] == c;
                assert(a0[j] == c);
            }
        }
        assert(a0.to_set() =~= b0.to_set());
        lemma_ascending_unique(a0, b0);
        assert(a =~= a0.push(x));
        assert(b =~= b0.push(x));
    }
}

/// Sorts texts that differ from one another into ascending order.
#[verifier::rlimit(60)]
pub fn sort_texts(items: Vec<Vec<char>>) -> (sorted: Vec<Vec<char>>)
    requires
        text_views(items@).no_duplicates(),
    ensures
        texts_ascending(text_views(sorted@)),
        text_views(sorted@).to_set() == text_views(items@).to_set(),
        sorted@.len() == items@.len(),
{
    let mut items = items;
    let ghost all = text_views(items@);
    let mut sorted: Vec<Vec<char>> = Vec::new();
    proof {
        assert(text_views(sorted@).to_set() =~= all.skip(all.len() as int).to_set());
    }
    while items.len() > 0
        invariant
            all.no_duplicates(),
            items@.len() <= all.len(),
            text_views(items@) == all.take(items@.len() as int),
            texts_ascending(text_views(sorted@)),
            text_views(sorted@).to_set() == all.skip(items@.len() as int).to_set(),
            sorted@.len() + items@.len() == all.len(),
        decreases items@.len(),
    {
        let ghost n = items@.len() as int;
        let ghost before_items = text_views(items@);
        let item = items.pop().unwrap();
        let ghost before = text_views(sorted@);
        proof {
            assert(item@ == before_items[n - 1]);
            assert(item@ == all[n - 1]);
            assert(text_views(items@) =~= all.take(n - 1));
            if before.contains(item@) {
                let tail = all.skip(n);
                assert(before.to_set().contains(item@));
                let k = choose|k: int| 0 <= k < tail.len() && tail[k] == item@;
                assert(all[n + k] == all[n - 1]);
            }
        }
        let mut p: usize = 0;
        while p < sorted.len() && text_less(&sorted[p], &item)
            invariant
                p <= sorted@.len(),
                before == text_views(sorted@),
                forall|i: int| 0 <= i < p ==> text_lt(#[trigger] before[i], item@),
            decreases sorted@.len() - p,
        {
            proof {
                assert(before[p as int] == sorted@[p as int]@);
            }
            p = p + 1;
        }
        proof {
            if p < sorted@.len() {
                assert(before[p as int] == sorted@[p as int]@);
                lemma_text_lt_total(before[p as int], item@);
                assert(before.contains(before[p as int]));
            }
        }
        sorted.insert(p, item);
        proof {
            let after = text_views(sorted@);
            let tail = all.skip(n);
            let longer_tail = all.skip(n - 1);
            assert(after =~= before.insert(p as int, item@));
            assert forall|i: int, j: int| 0 <= i < j < after.len() implies text_lt(
                #[trigger] after[i],
                #[trigger] after[j],
            ) by {
                let bi = if i < p { i } else { i - 1 };
                let bj = if j < p { j } else { j - 1 };
                if i != p {
                    assert(after[i] == before[bi]);
                }
                if j != p {
                    assert(after[j] == before[bj]);
                }
                if i == p {
                    assert(text_lt(item@, before[p as int]));
                    if bj > p {
                        assert(text_lt(before[p as int], before[bj]));
                        lemma_text_lt_transitive(item@, before[p as int], before[bj]);
                    }
                } else if j == p {
                    assert(text_lt(before[bi], item@));
                } else {
                    assert(text_lt(before[bi], before[bj]));
                }
            }
            assert forall|x: Seq<char>| after.to_set().contains(x) <==> longer_tail.to_set().contains(
                x,
            ) by {
                if after.to_set().contains(x) {
                    let k = choose|k: int| 0 <= k < after.len() && after[k] == x;
                    if k == p {
                        assert(longer_tail[0] == x);
                    } else {
                        let bk = if k < p { k } else { k - 1 };
                        assert(before[bk] == x);
                        assert(before.to_set().contains(x));
                        let t = choose|t: int| 0 <= t < tail.len() && tail[t] == x;
                        assert(longer_tail[t + 1] == x);
                    }
                }
                if longer_tail.to_set().contains(x) {
                    let t = choose|t: int| 0 <= t < longer_tail.len() && longer_tail[t] == x;
                    if t == 0 {
                        assert(after[p as int] == x);
                    } else {
                        assert(tail[t - 1] == x);
                        assert(tail.to_set().contains(x));
                        assert(before.to_set().contains(x));
                        let k = choose|k: int| 0 <= k < before.len() && before[k] == x;
                        if k < p {
                            assert(after[k] == x);
                        } else {
                            assert(after[k + 1] == x);
                        }
                    }
                }
            }
            assert(after.to_set() =~= longer_tail.to_set());
        }
    }
    proof {
        assert(all.skip(0) =~= all);
    }
    sorted
}

/// Appends `chars` to `out`.
pub fn push_all(out: &mut Vec<char>, chars: &Vec<char>)
    ensures
        final(out)@ == old(out)@ + chars@,
{
    let mut k: usize = 0;
    proof {
        assert(out@ =~= old(out)@ + chars@.take(0));
    }
    while k < chars.len()
        invariant
            k <= chars@.len(),
            out@ == old(out)@ + chars@.take(k as int),
        decreases chars@.len() - k,
    {
        out.push(chars[k]);
        proof {
            assert(chars@.take(k as int + 1) =~= chars@.take(k as int).push(chars@[k as int]));
            assert(out@ =~= old(out)@ + chars@.take(k as int + 1));
        }
        k = k + 1;
    }
    proof {
        assert(chars@.take(k as int) =~= chars@);
    }
}

/// Appends the characters of `s` to `out`.
pub fn push_str(out: &mut Vec<char>, s: &str)
    ensures
        final(out)@ == old(out)@ + s@,
{
    let chars = chars_of(s);
    push_all(out, &chars);
}

/// The texts of `ks` in a row, with `sep` between neighbours.
pub open spec fn join(ks: Seq<Seq<char>>, sep: Seq<char>) -> Seq<char>
    decreases ks.len(),
{
    if ks.len() == 0 {
        Seq::<char>::empty()
    } else if ks.len() == 1 {
        ks[0]
    } else {
        join(ks.drop_last(), sep) + sep + ks.last()
    }
}

/// Appends to `out` the texts of `items` with `sep` between neighbours.
#[verifier::rlimit(60)]
pub fn push_joined(out: &mut Vec<char>, items: &Vec<Vec<char>>, sep: &Vec<char>)
    ensures
        final(out)@ == old(out)@ + join(text_views(items@), sep@),
{
    let ghost ks = text_views(items@);
    let mut i: usize = 0;
    proof {
        assert(ks.take(0) =~= Seq::<Seq<char>>::empty());
        assert(out@ =~= old(out)@ + join(ks.take(0), sep@));
    }
    while i < items.len()
        invariant
            i <= items@.len(),
            ks == text_views(items@),
            out@ == old(out)@ + join(ks.take(i as int), sep@),
        decreases items@.len() - i,
    {
        let ghost start = out@;
        if i > 0 {
            push_all(out, sep);
        }
        let item = &items[i];
        let mut k: usize = 0;
        let ghost base = out@;
        proof {
            assert(out@ =~= base + item@.take(0));
        }
        while k < item.len()
            invariant
                k <= item@.len(),
                out@ == base + item@.take(k as int),
            decreases item@.len() - k,
        {
            out.push(item[k]);
            proof {
                assert(item@.take(k as int + 1) =~= item@.take(k as int).push(item@[k as int]));
                assert(out@ =~= base + item@.take(k as int + 1));
            }
            k = k + 1;
        }
        proof {
            assert(item@.take(k as int) =~= item@);
            let longer = ks.take(i as int + 1);
            assert(longer.drop_last() =~= ks.take(i as int));
            assert(longer.last() == item@);
            if i == 0 {
                assert(join(ks.take(0), sep@) =~= Seq::<char>::empty());
                assert(out@ =~= old(out)@ + join(longer, sep@));
            } else {
                assert(base =~= start + sep@);
                assert(out@ =~= old(out)@ + join(longer, sep@));
            }
        }
        i = i + 1;
    }
    proof {
        assert(ks.take(i as int) =~= ks);
    }
}

/// The digit that stands for `d`.
pub open spec fn digit(d: nat) -> char {
    (('0' as u8) + d as u8) as char
}

/// The decimal numeral of `n`, without leading zeros.
pub open spec fn decimal(n: nat) -> Seq<char>
    decreases n,
{
    if n < 10 {
        seq![digit(n)]
    } else {
        decimal(n / 10).push(digit(n % 10))
    }
}

/// Appends the decimal numeral of `n` to `out`.
pub fn push_decimal(out: &mut Vec<char>, n: usize)
    ensures
        final(out)@ == old(out)@ + decimal(n as nat),
    decreases n,
{
    if n >= 10 {
        push_decimal(out, n / 10);
    }
    let d: u8 = (n % 10) as u8;
    let c: char = (48u8 + d) as char;
    out.push(c);
    proof {
        assert(c == digit((n % 10) as nat));
        if n < 10 {
            assert(out@ =~= old(out)@ + decimal(n as nat));
        } else {
            assert(out@ =~= old(out)@ + decimal(n as nat));
        }
    }
}

/// A numeral has at least one digit.
pub proof fn lemma_decimal_len(n: nat)
    ensures
        decimal(n).len() >= 1,
        n >= 10 ==> decimal(n).len() >= 2,
    decreases n,
{
    if n >= 10 {
        lemma_decimal_len(n / 10);
    }
}

/// Different numbers have different numerals.
pub proof fn lemma_decimal_injective(a: nat, b: nat)
    requires
        decimal(a) == decimal(b),
    ensures
        a == b,
    decreases a,
{
    lemma_decimal_len(a);
    lemma_decimal_len(b);
    if a < 10 && b < 10 {
        assert(decimal(a)[0] == digit(a));
        assert(decimal(b)[0] == digit(b));
    } else if a >= 10 && b >= 10 {
        let x = decimal(a / 10);
        let y = decimal(b / 10);
        assert(decimal(a).last() == digit(a % 10));
        assert(decimal(b).last() == digit(b % 10));
        assert(decimal(a).drop_last() =~= x);
        assert(decimal(b).drop_last() =~= y);
        lemma_decimal_injective(a / 10, b / 10);
    }
}


/// Whether `c` is a decimal digit.
pub open spec fn is_digit(c: char) -> bool {
    '0' <= c <= '9'
}

/// The number that the digits of `s` from `from` up to `to` spell in base ten.
pub open spec fn digits_value(s: Seq<char>, from: int, to: int) -> nat
    decreases to - from,
{
    if from < to {
        (digits_value(s, from, to - 1) * 10 + (s[to - 1] as u32 - '0' as u32)) as nat
    } else {
        0
    }
}

/// Whether `t` holds no comma.
pub open spec fn comma_free(t: Seq<char>) -> bool {
    forall|i: int| 0 <= i < t.len() ==> #[trigger] t[i] != ','
}

/// A text is cut in one way only at its last comma.
pub proof fn lemma_last_comma(x: Seq<char>, y: Seq<char>, x2: Seq<char>, y2: Seq<char>)
    requires
        x + seq![','] + y == x2 + seq![','] + y2,
        comma_free(y),
        comma_free(y2),
    ensures
        x == x2,
        y == y2,
{
    let whole = x + seq![','] + y;
    let other = x2 + seq![','] + y2;
    assert(whole.len() == other.len());
    if y.len() < y2.len() {
        let p = x.len() as int;
        assert(whole[p] == ',');
        assert(other[p] == y2[p - x2.len() - 1]);
    } else if y2.len() < y.len() {
        let p = x2.len() as int;
        assert(other[p] == ',');
        assert(whole[p] == y[p - x.len() - 1]);
    } else {
        assert forall|i: int| 0 <= i < x.len() implies x[i] == x2[i] by {
            assert(whole[i] == x[i]);
            assert(other[i] == x2[i]);
        }
        assert(x =~= x2);
        assert forall|i: int| 0 <= i < y.len() implies y[i] == y2[i] by {
            assert(whole[x.len() + 1 + i] == y[i]);
            assert(other[x2.len() + 1 + i] == y2[i]);
        }
        assert(y =~= y2);
    }
}

/// Texts without commas, at least one, are recovered from their joining by
/// commas.
pub proof fn lemma_join_injective(ks: Seq<Seq<char>>, ks2: Seq<Seq<char>>)
    requires
        ks.len() >= 1,
        ks2.len() >= 1,
        forall|i: int| 0 <= i < ks.len() ==> comma_free(#[trigger] ks[i]),
        forall|i: int| 0 <= i < ks2.len() ==> comma_free(#[trigger] ks2[i]),
        join(ks, seq![',']) == join(ks2, seq![',']),
    ensures
        ks == ks2,
    decreases ks.len(),
{
    let sep = seq![','];
    if ks.len() == 1 && ks2.len() == 1 {
        assert(ks =~= ks2);
    } else if ks.len() == 1 {
        let front = join(ks2.drop_last(), sep);
        let whole = front + sep + ks2.last();
        assert(comma_free(ks[0]));
        assert(whole[front.len() as int] == ',');
    } else if ks2.len() == 1 {
        let front = join(ks.drop_last(), sep);
        let whole = front + sep + ks.last();
        assert(comma_free(ks2[0]));
        assert(whole[front.len() as int] == ',');
    } else {
        assert(comma_free(ks[ks.len() - 1]));
        assert(comma_free(ks2[ks2.len() - 1]));
        lemma_last_comma(
            join(ks.drop_last(), sep),
            ks.last(),
            join(ks2.drop_last(), sep),
            ks2.last(),
        );
        assert forall|i: int| 0 <= i < ks.drop_last().len() implies comma_free(
            #[trigger] ks.drop_last()[i],
        ) by {
            assert(ks.drop_last()[i] == ks[i]);
        }
        assert forall|i: int| 0 <= i < ks2.drop_last().len() implies comma_free(
            #[trigger] ks2.drop_last()[i],
        ) by {
            assert(ks2.drop_last()[i] == ks2[i]);
        }
        lemma_join_injective(ks.drop_last(), ks2.drop_last());
        assert(ks =~= ks.drop_last().push(ks.last()));
        assert(ks2 =~= ks2.drop_last().push(ks2.last()));
    }
}

/// A decimal numeral is made of digits.
pub proof fn lemma_decimal_digits(n: nat)
    ensures
        forall|i: int| 0 <= i < decimal(n).len() ==> is_digit(#[trigger] decimal(n)[i]),
    decreases n,
{
    let numeral = decimal(n);
    if n >= 10 {
        lemma_decimal_digits(n / 10);
        assert(is_digit(digit(n % 10)));
        let front = decimal(n / 10);
        assert forall|i: int| 0 <= i < numeral.len() implies is_digit(#[trigger] numeral[i]) by {
            if i < front.len() {
                assert(numeral[i] == front[i]);
            }
        }
    } else {
        assert(is_digit(digit(n)));
        assert(numeral[0] == digit(n));
    }
}


} // verus!
