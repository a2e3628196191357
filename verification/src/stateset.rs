//! Finite ordered sets of state indices.

use vstd::prelude::*;

verus! {

/// Whether the numbers of `s` strictly increase.
pub open spec fn strictly_increasing(s: Seq<usize>) -> bool {
    forall|i: int, j: int| 0 <= i < j < s.len() ==> s[i] < s[j]
}

/// A strictly increasing sequence lists each number once.
pub proof fn lemma_increasing_no_duplicates(s: Seq<usize>)
    requires
        strictly_increasing(s),
    ensures
        s.no_duplicates(),
{
    assert forall|i: int, j: int| 0 <= i < s.len() && 0 <= j < s.len() && i != j implies s[i]
        != s[j] by {
        if i < j {
            assert(s[i] < s[j]);
        } else {
            assert(s[j] < s[i]);
        }
    }
}

/// Two strictly increasing sequences with the same members are equal.
pub proof fn lemma_increasing_unique(a: Seq<usize>, b: Seq<usize>)
    requires
        strictly_increasing(a),
        strictly_increasing(b),
        a.to_set() == b.to_set(),
    ensures
        a == b,
    decreases a.len(),
{
    if a.len() == 0 {
        if b.len() > 0 {
            assert(b.to_set().contains(b[0]));
            assert(a.to_set().contains(b[0]));
        }
        assert(a =~= b);
    } else {
        let x = a.last();
        assert(a.to_set().contains(x));
        assert(b.to_set().contains(x));
        let k = choose|k: int| 0 <= k < b.len() && b[k] == x;
        if k != b.len() - 1 {
            let y = b.last();
            assert(b.to_set().contains(y));
            assert(a.to_set().contains(y));
            let m = choose|m: int| 0 <= m < a.len() && a[m] == y;
            assert(b[k] < y);
            if m < a.len() - 1 {
                assert(a[m] < x);
            }
        }
        let a0 = a.drop_last();
        let b0 = b.drop_last();
        assert forall|q: usize| a0.to_set().contains(q) <==> b0.to_set().contains(q) by {
            if a0.to_set().contains(q) {
                let i = choose|i: int| 0 <= i < a0.len() && a0[i] == q;
                assert(a[i] == q);
                assert(a[i] < x);
                assert(a.to_set().contains(q));
                assert(b.to_set().contains(q));
                let j = choose|j: int| 0 <= j < b.len() && b[j] == q;
                assert(b0[j] == q);
            }
            if b0.to_set().contains(q) {
                let i = choose|i: int| 0 <= i < b0.len() && b0[i] == q;
                assert(b[i] == q);
                assert(b[i] < x);
                assert(b.to_set().contains(q));
                assert(a.to_set().contains(q));
                let j = choose|j: int| 0 <= j < a.len() && a[j] == q;
                assert(a0[j] == q);
            }
        }
        assert(a0.to_set() =~= b0.to_set());
        lemma_increasing_unique(a0, b0);
        assert(a =~= a0.push(x));
        assert(b =~= b0.push(x));
    }
}

/// Numbers of which each is less than the next strictly increase.
pub proof fn lemma_neighbours_grow(s: Seq<usize>, i: int, j: int)
    requires
        0 <= i < j < s.len(),
        forall|k: int| 0 < k < s.len() ==> s[k - 1] < #[trigger] s[k],
    ensures
        s[i] < s[j],
    decreases j - i,
{
    assert(s[j - 1] < s[j]);
    if i < j - 1 {
        lemma_neighbours_grow(s, i, j - 1);
    }
}

/// A finite set of state indices, kept in ascending order.
#[derive(Debug)]
pub struct StateSet {
    items: Vec<usize>,
}

impl View for StateSet {
    type V = Set<usize>;

    /// The members of the set.
    closed spec fn view(&self) -> Set<usize> {
        self.items@.to_set()
    }
}

impl StateSet {
    /// The members in ascending order.
    pub closed spec fn seq(&self) -> Seq<usize> {
        self.items@
    }

    /// The representation invariant: the members are stored in strictly
    /// ascending order.
    pub closed spec fn wf(&self) -> bool {
        strictly_increasing(self.items@)
    }

    /// The ordered members are exactly the members, each listed once in
    /// ascending order.
    pub proof fn lemma_seq(&self)
        requires
            self.wf(),
        ensures
            strictly_increasing(self.seq()),
            self.seq().no_duplicates(),
            self.seq().to_set() == self@,
            self@.finite(),
            self@.len() == self.seq().len(),
            self.seq().len() <= usize::MAX,
            forall|q: usize| self@.contains(q) <==> self.seq().contains(q),
    {
        lemma_increasing_no_duplicates(self.items@);
        vstd::seq_lib::seq_to_set_is_finite(self.items@);
        self.items@.unique_seq_to_set();
        assert(self.items@.len() == self.items.len());
    }

    /// The empty set.
    pub fn new() -> (s: StateSet)
        ensures
            s.wf(),
            s@ == Set::<usize>::empty(),
            s.seq() == Seq::<usize>::empty(),
    {
        let s = StateSet { items: Vec::new() };
        assert(s.items@.to_set() =~= Set::<usize>::empty());
        s
    }

    /// The number of members.
    pub fn len(&self) -> (n: usize)
        requires
            self.wf(),
        ensures
            n == self.seq().len(),
            n == self@.len(),
    {
        proof {
            self.lemma_seq();
        }
        self.items.len()
    }

    /// Whether the set has no member.
    pub fn is_empty(&self) -> (b: bool)
        requires
            self.wf(),
        ensures
            b == (self@ == Set::<usize>::empty()),
            b == (self.seq().len() == 0),
    {
        proof {
            self.lemma_seq();
            if self.items@.len() == 0 {
                assert(self@ =~= Set::<usize>::empty());
            } else {
                assert(self@.contains(self.items@[0]));
            }
        }
        self.items.len() == 0
    }

    /// The member of rank `i` in ascending order.
    pub fn get(&self, i: usize) -> (q: usize)
        requires
            self.wf(),
            i < self.seq().len(),
        ensures
            q == self.seq()[i as int],
            self@.contains(q),
    {
        assert(self.items@.to_set().contains(self.items@[i as int]));
        self.items[i]
    }

    /// The number of members below `q`, which is the rank of `q` where it is
    /// a member.
    fn rank(&self, q: usize) -> (p: usize)
        requires
            self.wf(),
        ensures
            p <= self.seq().len(),
            forall|i: int| 0 <= i < p ==> self.seq()[i] < q,
            forall|i: int| p <= i < self.seq().len() ==> q <= self.seq()[i],
    {
        let mut p: usize = 0;
        while p < self.items.len() && self.items[p] < q
            invariant
                self.wf(),
                p <= self.items@.len(),
                forall|i: int| 0 <= i < p ==> self.items@[i] < q,
            decreases self.items@.len() - p,
        {
            p = p + 1;
        }
        proof {
            assert forall|i: int| p <= i < self.items@.len() implies q <= self.items@[i] by {
                if i > p {
                    assert(self.items@[p as int] < self.items@[i]);
                }
            }
        }
        p
    }

    /// Whether `q` is a member.
    pub fn contains(&self, q: usize) -> (b: bool)
        requires
            self.wf(),
        ensures
            b == self@.contains(q),
    {
        let p = self.rank(q);
        let found = p < self.items.len() && self.items[p] == q;
        proof {
            if found {
                assert(self.items@.to_set().contains(self.items@[p as int]));
            } else if self@.contains(q) {
                let k = choose|k: int| 0 <= k < self.items@.len() && self.items@[k] == q;
                if k > p {
                    assert(self.items@[p as int] < self.items@[k]);
                }
            }
        }
        found
    }

    /// The rank of `q` in ascending order, where it is a member.
    pub fn position(&self, q: usize) -> (r: Option<usize>)
        requires
            self.wf(),
        ensures
            r is Some <==> self@.contains(q),
            r matches Some(i) ==> i < self.seq().len() && self.seq()[i as int] == q,
    {
        let p = self.rank(q);
        if p < self.items.len() && self.items[p] == q {
            assert(self.items@.to_set().contains(self.items@[p as int]));
            Some(p)
        } else {
            proof {
                if self@.contains(q) {
                    let k = choose|k: int| 0 <= k < self.items@.len() && self.items@[k] == q;
                    if k > p {
                        assert(self.items@[p as int] < self.items@[k]);
                    }
                }
            }
            None
        }
    }

    /// Adds `q`, and tells whether it was absent.
    pub fn insert(&mut self, q: usize) -> (added: bool)
        requires
            old(self).wf(),
        ensures
            final(self).wf(),
            final(self)@ == old(self)@.insert(q),
            added == !old(self)@.contains(q),
    {
        let p = self.rank(q);
        if p < self.items.len() && self.items[p] == q {
            proof {
                assert(self.items@.to_set().contains(self.items@[p as int]));
                assert(self@.insert(q) =~= self@);
            }
            false
        } else {
            let ghost before = self.items@;
            self.items.insert(p, q);
            proof {
                let after = self.items@;
                assert(after == before.insert(p as int, q));
                assert forall|i: int, j: int| 0 <= i < j < after.len() implies after[i] < after[j] by {
                    let bi = if i < p { i } else { i - 1 };
                    let bj = if j < p { j } else { j - 1 };
                    if i != p {
                        assert(after[i] == before[bi]);
                    }
                    if j != p {
                        assert(after[j] == before[bj]);
                    }
                }
                assert forall|x: usize| after.to_set().contains(x) <==> before.to_set().insert(
                    q,
                ).contains(x) by {
                    if after.to_set().contains(x) {
                        let k = choose|k: int| 0 <= k < after.len() && after[k] == x;
                        if k < p {
                            assert(before[k] == x);
                        } else if k > p {
                            assert(before[k - 1] == x);
                        }
                    }
                    if before.to_set().contains(x) {
                        let k = choose|k: int| 0 <= k < before.len() && before[k] == x;
                        if k < p {
                            assert(after[k] == x);
                        } else {
                            assert(after[k + 1] == x);
                        }
                    }
                    if x == q {
                        assert(after[p as int] == q);
                    }
                }
                assert(after.to_set() =~= before.to_set().insert(q));
                if before.to_set().contains(q) {
                    let k = choose|k: int| 0 <= k < before.len() && before[k] == q;
                    if k > p {
                        assert(before[p as int] < before[k]);
                    }
                }
            }
            true
        }
    }

    /// Adds every member of `other`.
    pub fn extend(&mut self, other: &StateSet)
        requires
            old(self).wf(),
            other.wf(),
        ensures
            final(self).wf(),
            final(self)@ == old(self)@.union(other@),
    {
        let mut i: usize = 0;
        while i < other.items.len()
            invariant
                self.wf(),
                other.wf(),
                i <= other.items@.len(),
                self@ == old(self)@.union(other.items@.take(i as int).to_set()),
            decreases other.items@.len() - i,
        {
            let ghost before = self@;
            self.insert(other.items[i]);
            proof {
                let t0 = other.items@.take(i as int);
                let t1 = other.items@.take(i as int + 1);
                assert(t1 =~= t0.push(other.items@[i as int]));
                t0.lemma_push_to_set_commute(other.items@[i as int]);
                assert(self@ =~= old(self)@.union(t1.to_set()));
            }
            i = i + 1;
        }
        proof {
            assert(other.items@.take(i as int) =~= other.items@);
        }
    }

    /// The members of `self` that are not members of `other`.
    pub fn difference(&self, other: &StateSet) -> (d: StateSet)
        requires
            self.wf(),
            other.wf(),
        ensures
            d.wf(),
            d@ == self@.difference(other@),
    {
        let mut d = StateSet::new();
        let mut i: usize = 0;
        while i < self.items.len()
            invariant
                self.wf(),
                other.wf(),
                d.wf(),
                i <= self.items@.len(),
                d@ == self.items@.take(i as int).to_set().difference(other@),
            decreases self.items@.len() - i,
        {
            let q = self.items[i];
            proof {
                let t0 = self.items@.take(i as int);
                let t1 = self.items@.take(i as int + 1);
                assert(t1 =~= t0.push(q));
                t0.lemma_push_to_set_commute(q);
            }
            if !other.contains(q) {
                d.insert(q);
                assert(d@ =~= self.items@.take(i as int + 1).to_set().difference(other@));
            } else {
                assert(d@ =~= self.items@.take(i as int + 1).to_set().difference(other@));
            }
            i = i + 1;
        }
        proof {
            assert(self.items@.take(i as int) =~= self.items@);
        }
        d
    }

    /// Whether the two sets have the same members.
    pub fn equals(&self, other: &StateSet) -> (same: bool)
        requires
            self.wf(),
            other.wf(),
        ensures
            same == (self@ == other@),
    {
        if self.items.len() != other.items.len() {
            proof {
                self.lemma_seq();
                other.lemma_seq();
            }
            return false;
        }
        let mut i: usize = 0;
        while i < self.items.len()
            invariant
                self.wf(),
                other.wf(),
                self.items@.len() == other.items@.len(),
                i <= self.items@.len(),
                forall|k: int| 0 <= k < i ==> self.items@[k] == other.items@[k],
            decreases self.items@.len() - i,
        {
            if self.items[i] != other.items[i] {
                proof {
                    if self@ == other@ {
                        lemma_increasing_unique(self.items@, other.items@);
                    }
                }
                return false;
            }
            i = i + 1;
        }
        assert(self.items@ =~= other.items@);
        true
    }

    /// Tells whether the representation invariant holds.
    pub fn is_well_formed(&self) -> (ok: bool)
        ensures
            ok == self.wf(),
    {
        let mut i: usize = 1;
        while i < self.items.len()
            invariant
                1 <= i,
                forall|k: int|
                    0 < k < i && k < self.items@.len() ==> self.items@[k - 1] < #[trigger] self.items@[k],
            decreases self.items@.len() - i,
        {
            if !(self.items[i - 1] < self.items[i]) {
                return false;
            }
            i = i + 1;
        }
        proof {
            assert forall|x: int, y: int| 0 <= x < y < self.items@.len() implies self.items@[x]
                < self.items@[y] by {
                lemma_neighbours_grow(self.items@, x, y);
            }
        }
        true
    }

    /// The set whose one member is `q`.
    pub fn singleton(q: usize) -> (s: StateSet)
        ensures
            s.wf(),
            s@ == set![q],
    {
        let mut s = StateSet::new();
        s.insert(q);
        assert(s@ =~= set![q]);
        s
    }

    /// Whether the two sets share a member.
    pub fn intersects(&self, other: &StateSet) -> (shared: bool)
        requires
            self.wf(),
            other.wf(),
        ensures
            shared == exists|q: usize| self@.contains(q) && other@.contains(q),
    {
        let mut i: usize = 0;
        while i < self.items.len()
            invariant
                self.wf(),
                other.wf(),
                i <= self.items@.len(),
                forall|k: int| 0 <= k < i ==> !other@.contains(self.items@[k]),
            decreases self.items@.len() - i,
        {
            if other.contains(self.items[i]) {
                assert(self.items@.to_set().contains(self.items@[i as int]));
                return true;
            }
            i = i + 1;
        }
        proof {
            assert forall|q: usize| self@.contains(q) implies !other@.contains(q) by {
                let k = choose|k: int| 0 <= k < self.items@.len() && self.items@[k] == q;
            }
        }
        false
    }

    /// A copy of the set.
    pub fn duplicate(&self) -> (s: StateSet)
        requires
            self.wf(),
        ensures
            s.wf(),
            s@ == self@,
            s.seq() == self.seq(),
    {
        let mut items: Vec<usize> = Vec::new();
        let mut i: usize = 0;
        while i < self.items.len()
            invariant
                i <= self.items@.len(),
                items@ == self.items@.take(i as int),
            decreases self.items@.len() - i,
        {
            items.push(self.items[i]);
            assert(self.items@.take(i as int + 1) =~= self.items@.take(i as int).push(
                self.items@[i as int],
            ));
            i = i + 1;
        }
        assert(self.items@.take(i as int) =~= self.items@);
        StateSet { items }
    }

    /// The members in ascending order.
    pub fn to_vec(&self) -> (v: Vec<usize>)
        requires
            self.wf(),
        ensures
            v@ == self.seq(),
    {
        let s = self.duplicate();
        s.items
    }
}

} // verus!
