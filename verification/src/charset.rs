//! Finite ordered sets of characters.

use vstd::prelude::*;

verus! {

/// Whether the code points of `s` strictly increase.
pub open spec fn strictly_increasing(s: Seq<char>) -> bool {
    forall|i: int, j: int| 0 <= i < j < s.len() ==> s[i] < s[j]
}

/// A strictly increasing sequence lists each character once.
pub proof fn lemma_increasing_no_duplicates(s: Seq<char>)
    requires
        strictly_increasing(s),
    ensures
        s.no_duplicates(),
{
    assert forall|i: int, j: int| 0 <= i < s.len() && 0 <= j < s.len() && i != j implies s[i]
        != s[j] by {
        if i < j {
            assert(s[i] < s[j]);
        } else {
            assert(s[j] < s[i]);
        }
    }
}

/// Two strictly increasing sequences with the same members are equal.
pub proof fn lemma_increasing_unique(a: Seq<char>, b: Seq<char>)
    requires
        strictly_increasing(a),
        strictly_increasing(b),
        a.to_set() == b.to_set(),
    ensures
        a == b,
    decreases a.len(),
{
    if a.len() == 0 {
        if b.len() > 0 {
            assert(b.to_set().contains(b[0]));
            assert(a.to_set().contains(b[0]));
        }
        assert(a =~= b);
    } else {
        let x = a.last();
        assert(a.to_set().contains(x));
        assert(b.to_set().contains(x));
        let k = choose|k: int| 0 <= k < b.len() && b[k] == x;
        if k != b.len() - 1 {
            let y = b.last();
            assert(b.to_set().contains(y));
            assert(a.to_set().contains(y));
            let m = choose|m: int| 0 <= m < a.len() && a[m] == y;
            assert(b[k] < y);
            if m < a.len() - 1 {
                assert(a[m] < x);
            }
        }
        let a0 = a.drop_last();
        let b0 = b.drop_last();
        assert forall|c: char| a0.to_set().contains(c) <==> b0.to_set().contains(c) by {
            if a0.to_set().contains(c) {
                let i = choose|i: int| 0 <= i < a0.len() && a0[i] == c;
                assert(a[i] == c);
                assert(a[i] < x);
                assert(a.to_set().contains(c));
                assert(b.to_set().contains(c));
                let j = choose|j: int| 0 <= j < b.len() && b[j] == c;
                assert(b0[j] == c);
            }
            if b0.to_set().contains(c) {
                let i = choose|i: int| 0 <= i < b0.len() && b0[i] == c;
                assert(b[i] == c);
                assert(b[i] < x);
                assert(b.to_set().contains(c));
                assert(a.to_set().contains(c));
                let j = choose|j: int| 0 <= j < a.len() && a[j] == c;
                assert(a0[j] == c);
            }
        }
        assert(a0.to_set() =~= b0.to_set());
        lemma_increasing_unique(a0, b0);
        assert(a =~= a0.push(x));
        assert(b =~= b0.push(x));
    }
}

/// A finite set of characters, kept in ascending order of code point.
#[derive(Debug)]
pub struct CharSet {
    chars: Vec<char>,
}

impl View for CharSet {
    type V = Set<char>;

    /// The members of the set.
    closed spec fn view(&self) -> Set<char> {
        self.chars@.to_set()
    }
}

impl CharSet {
    /// The members in ascending order.
    pub closed spec fn seq(&self) -> Seq<char> {
        self.chars@
    }

    /// The representation invariant: the members are stored in strictly
    /// ascending order.
    pub closed spec fn wf(&self) -> bool {
        strictly_increasing(self.chars@)
    }

    /// The ordered members are exactly the members, each listed once in
    /// ascending order.
    pub proof fn lemma_seq(&self)
        requires
            self.wf(),
        ensures
            strictly_increasing(self.seq()),
            self.seq().no_duplicates(),
            self.seq().to_set() == self@,
            self@.finite(),
            self@.len() == self.seq().len(),
            self.seq().len() <= usize::MAX,
            forall|c: char| self@.contains(c) <==> self.seq().contains(c),
    {
        lemma_increasing_no_duplicates(self.chars@);
        vstd::seq_lib::seq_to_set_is_finite(self.chars@);
        self.chars@.unique_seq_to_set();
        assert(self.chars@.len() == self.chars.len());
    }

    /// The empty set.
    pub fn new() -> (s: CharSet)
        ensures
            s.wf(),
            s@ == Set::<char>::empty(),
            s.seq() == Seq::<char>::empty(),
    {
        let s = CharSet { chars: Vec::new() };
        assert(s.chars@.to_set() =~= Set::<char>::empty());
        s
    }

    /// The number of members.
    pub fn len(&self) -> (n: usize)
        requires
            self.wf(),
        ensures
            n == self.seq().len(),
            n == self@.len(),
    {
        proof {
            self.lemma_seq();
        }
        self.chars.len()
    }

    /// Whether the set has no member.
    pub fn is_empty(&self) -> (b: bool)
        requires
            self.wf(),
        ensures
            b == (self@ == Set::<char>::empty()),
            b == (self.seq().len() == 0),
    {
        proof {
            self.lemma_seq();
            if self.chars@.len() == 0 {
                assert(self@ =~= Set::<char>::empty());
            } else {
                assert(self@.contains(self.chars@[0]));
            }
        }
        self.chars.len() == 0
    }

    /// The member of rank `i` in ascending order.
    pub fn get(&self, i: usize) -> (c: char)
        requires
            self.wf(),
            i < self.seq().len(),
        ensures
            c == self.seq()[i as int],
            self@.contains(c),
    {
        assert(self.chars@.to_set().contains(self.chars@[i as int]));
        self.chars[i]
    }

    /// The number of members below `c`, which is the rank of `c` where it is
    /// a member.
    fn rank(&self, c: char) -> (p: usize)
        requires
            self.wf(),
        ensures
            p <= self.seq().len(),
            forall|i: int| 0 <= i < p ==> self.seq()[i] < c,
            forall|i: int| p <= i < self.seq().len() ==> c <= self.seq()[i],
    {
        let mut p: usize = 0;
        while p < self.chars.len() && self.chars[p] < c
            invariant
                self.wf(),
                p <= self.chars@.len(),
                forall|i: int| 0 <= i < p ==> self.chars@[i] < c,
            decreases self.chars@.len() - p,
        {
            p = p + 1;
        }
        proof {
            assert forall|i: int| p <= i < self.chars@.len() implies c <= self.chars@[i] by {
                if i > p {
                    assert(self.chars@[p as int] < self.chars@[i]);
                }
            }
        }
        p
    }

    /// Whether `c` is a member.
    pub fn contains(&self, c: char) -> (b: bool)
        requires
            self.wf(),
        ensures
            b == self@.contains(c),
    {
        let p = self.rank(c);
        let found = p < self.chars.len() && self.chars[p] == c;
        proof {
            if found {
                assert(self.chars@.to_set().contains(self.chars@[p as int]));
            } else if self@.contains(c) {
                let k = choose|k: int| 0 <= k < self.chars@.len() && self.chars@[k] == c;
                if k > p {
                    assert(self.chars@[p as int] < self.chars@[k]);
                }
            }
        }
        found
    }

    /// The rank of `c` in ascending order, where it is a member.
    pub fn position(&self, c: char) -> (r: Option<usize>)
        requires
            self.wf(),
        ensures
            r is Some <==> self@.contains(c),
            r matches Some(i) ==> i < self.seq().len() && self.seq()[i as int] == c,
    {
        let p = self.rank(c);
        if p < self.chars.len() && self.chars[p] == c {
            assert(self.chars@.to_set().contains(self.chars@[p as int]));
            Some(p)
        } else {
            proof {
                if self@.contains(c) {
                    let k = choose|k: int| 0 <= k < self.chars@.len() && self.chars@[k] == c;
                    if k > p {
                        assert(self.chars@[p as int] < self.chars@[k]);
                    }
                }
            }
            None
        }
    }

    /// Adds `c`, and tells whether it was absent.
    pub fn insert(&mut self, c: char) -> (added: bool)
        requires
            old(self).wf(),
        ensures
            final(self).wf(),
            final(self)@ == old(self)@.insert(c),
            added == !old(self)@.contains(c),
    {
        let p = self.rank(c);
        if p < self.chars.len() && self.chars[p] == c {
            proof {
                assert(self.chars@.to_set().contains(self.chars@[p as int]));
                assert(self@.insert(c) =~= self@);
            }
            false
        } else {
            let ghost before = self.chars@;
            self.chars.insert(p, c);
            proof {
                let after = self.chars@;
                assert(after == before.insert(p as int, c));
                assert forall|i: int, j: int| 0 <= i < j < after.len() implies after[i] < after[j] by {
                    let bi = if i < p { i } else { i - 1 };
                    let bj = if j < p { j } else { j - 1 };
                    if i != p {
                        assert(after[i] == before[bi]);
                    }
                    if j != p {
                        assert(after[j] == before[bj]);
                    }
                }
                assert forall|x: char| after.to_set().contains(x) <==> before.to_set().insert(
                    c,
                ).contains(x) by {
                    if after.to_set().contains(x) {
                        let k = choose|k: int| 0 <= k < after.len() && after[k] == x;
                        if k < p {
                            assert(before[k] == x);
                        } else if k > p {
                            assert(before[k - 1] == x);
                        }
                    }
                    if before.to_set().contains(x) {
                        let k = choose|k: int| 0 <= k < before.len() && before[k] == x;
                        if k < p {
                            assert(after[k] == x);
                        } else {
                            assert(after[k + 1] == x);
                        }
                    }
                    if x == c {
                        assert(after[p as int] == c);
                    }
                }
                assert(after.to_set() =~= before.to_set().insert(c));
                if before.to_set().contains(c) {
                    let k = choose|k: int| 0 <= k < before.len() && before[k] == c;
                    if k > p {
                        assert(before[p as int] < before[k]);
                    }
                }
            }
            true
        }
    }

    /// Adds every member of `other`.
    pub fn extend(&mut self, other: &CharSet)
        requires
            old(self).wf(),
            other.wf(),
        ensures
            final(self).wf(),
            final(self)@ == old(self)@.union(other@),
    {
        let mut i: usize = 0;
        while i < other.chars.len()
            invariant
                self.wf(),
                other.wf(),
                i <= other.chars@.len(),
                self@ == old(self)@.union(other.chars@.take(i as int).to_set()),
            decreases other.chars@.len() - i,
        {
            let ghost before = self@;
            self.insert(other.chars[i]);
            proof {
                let t0 = other.chars@.take(i as int);
                let t1 = other.chars@.take(i as int + 1);
                assert(t1 =~= t0.push(other.chars@[i as int]));
                t0.lemma_push_to_set_commute(other.chars@[i as int]);
                assert(self@ =~= old(self)@.union(t1.to_set()));
            }
            i = i + 1;
        }
        proof {
            assert(other.chars@.take(i as int) =~= other.chars@);
        }
    }

    /// The members of `self` that are not members of `other`.
    pub fn difference(&self, other: &CharSet) -> (d: CharSet)
        requires
            self.wf(),
            other.wf(),
        ensures
            d.wf(),
            d@ == self@.difference(other@),
    {
        let mut d = CharSet::new();
        let mut i: usize = 0;
        while i < self.chars.len()
            invariant
                self.wf(),
                other.wf(),
                d.wf(),
                i <= self.chars@.len(),
                d@ == self.chars@.take(i as int).to_set().difference(other@),
            decreases self.chars@.len() - i,
        {
            let c = self.chars[i];
            proof {
                let t0 = self.chars@.take(i as int);
                let t1 = self.chars@.take(i as int + 1);
                assert(t1 =~= t0.push(c));
                t0.lemma_push_to_set_commute(c);
            }
            if !other.contains(c) {
                d.insert(c);
                assert(d@ =~= self.chars@.take(i as int + 1).to_set().difference(other@));
            } else {
                assert(d@ =~= self.chars@.take(i as int + 1).to_set().difference(other@));
            }
            i = i + 1;
        }
        proof {
            assert(self.chars@.take(i as int) =~= self.chars@);
        }
        d
    }

    /// A copy of the set.
    pub fn duplicate(&self) -> (s: CharSet)
        requires
            self.wf(),
        ensures
            s.wf(),
            s@ == self@,
            s.seq() == self.seq(),
    {
        let mut chars: Vec<char> = Vec::new();
        let mut i: usize = 0;
        while i < self.chars.len()
            invariant
                i <= self.chars@.len(),
                chars@ == self.chars@.take(i as int),
            decreases self.chars@.len() - i,
        {
            chars.push(self.chars[i]);
            assert(self.chars@.take(i as int + 1) =~= self.chars@.take(i as int).push(
                self.chars@[i as int],
            ));
            i = i + 1;
        }
        assert(self.chars@.take(i as int) =~= self.chars@);
        CharSet { chars }
    }

    /// The members in ascending order.
    pub fn to_vec(&self) -> (v: Vec<char>)
        requires
            self.wf(),
        ensures
            v@ == self.seq(),
    {
        let s = self.duplicate();
        s.chars
    }
}

/// The members of `chars` in ascending order.
pub open spec fn sorted_chars(chars: Set<char>) -> Seq<char> {
    choose|s: Seq<char>| strictly_increasing(s) && s.to_set() == chars
}

/// The ordered members of a character set are its members in ascending
/// order.
pub proof fn lemma_sorted_chars(chars: &CharSet)
    requires
        chars.wf(),
    ensures
        sorted_chars(chars@) == chars.seq(),
{
    chars.lemma_seq();
    let s = sorted_chars(chars@);
    assert(strictly_increasing(chars.seq()) && chars.seq().to_set() == chars@);
    lemma_increasing_unique(s, chars.seq());
}

} // verus!
