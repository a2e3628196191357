//! The two-way maps of an automaton: between the characters of its alphabet
//! and their column indices, and between state keys and state indices. Both
//! are `bimap::BiMap` values; what they hold is modelled as a map from the
//! left values to the right values.

use bimap::BiMap;
use vstd::prelude::*;

verus! {

/// `bimap::BiHashMap`, the type behind `bimap::BiMap`: a value of it is
/// opaque, and only what the functions below say is known of it.
#[verifier::external_type_specification]
#[verifier::external_body]
#[verifier::reject_recursive_types(L)]
#[verifier::reject_recursive_types(R)]
#[verifier::reject_recursive_types(LS)]
#[verifier::reject_recursive_types(RS)]
pub struct ExBiHashMap<L, R, LS, RS>(bimap::BiHashMap<L, R, LS, RS>);

/// The pairs that a character map holds, each character with its index.
pub uninterp spec fn symbol_pairs(m: BiMap<char, usize>) -> Map<char, usize>;

/// The pairs that a key map holds, each key with its index.
pub uninterp spec fn key_pairs(m: BiMap<String, usize>) -> Map<Seq<char>, usize>;

/// The pairs left after `(left, right)` is put into a two-way map that held
/// `pairs`: the pair of `left` and the pairs with `right` give way to it.
pub open spec fn pairs_after_insert<L, R>(pairs: Map<L, R>, left: L, right: R) -> Map<L, R> {
    Map::new(
        |l: L| l == left || (pairs.contains_key(l) && pairs[l] != right),
        |l: L| if l == left { right } else { pairs[l] },
    )
}

/// The number of pairs of a map that holds finitely many.
pub open spec fn size_of<L>(pairs: Map<L, usize>) -> Option<nat> {
    if pairs.dom().finite() {
        Some(pairs.len())
    } else {
        None
    }
}

/// `BiMap::new`: the map holds no pair.
#[verifier::external_body]
pub(crate) fn symbols_new() -> (fresh: BiMap<char, usize>)
    ensures
        symbol_pairs(fresh) == (Map::<char, usize>::empty()),
{
    BiMap::new()
}

/// `BiMap::insert`: the pair is put in, and the pairs that held its
/// character or its index before are removed.
#[verifier::external_body]
pub(crate) fn symbols_insert(m: &mut BiMap<char, usize>, c: char, i: usize)
    ensures
        symbol_pairs(*final(m)) == pairs_after_insert(symbol_pairs(*old(m)), c, i),
{
    m.insert(c, i);
}

/// `BiMap::get_by_left`: the index paired with the character, if any.
#[verifier::external_body]
pub(crate) fn symbols_get_by_left(m: &BiMap<char, usize>, c: char) -> (r: Option<usize>)
    ensures
        r == if symbol_pairs(*m).contains_key(c) {
            Some(symbol_pairs(*m)[c])
        } else {
            None
        },
{
    m.get_by_left(&c).copied()
}

/// `BiMap::get_by_right`: a character paired with the index, if there is one.
#[verifier::external_body]
pub(crate) fn symbols_get_by_right(m: &BiMap<char, usize>, i: usize) -> (r: Option<char>)
    ensures
        r matches Some(c) ==> symbol_pairs(*m).contains_key(c) && symbol_pairs(*m)[c] == i,
        r is None ==> forall|c: char| symbol_pairs(*m).contains_key(c) ==> symbol_pairs(*m)[c] != i,
{
    m.get_by_right(&i).copied()
}

/// `BiMap::len`: the number of pairs, which are finitely many.
#[verifier::external_body]
pub(crate) fn symbols_len(m: &BiMap<char, usize>) -> (n: usize)
    ensures
        size_of(symbol_pairs(*m)) == Some(n as nat),
{
    m.len()
}

/// `BiMap::new`: the map holds no pair.
#[verifier::external_body]
pub(crate) fn keys_new() -> (fresh: BiMap<String, usize>)
    ensures
        key_pairs(fresh) == (Map::<Seq<char>, usize>::empty()),
{
    BiMap::new()
}

/// `BiMap::insert`: the pair is put in, and the pairs that held its key or
/// its index before are removed.
#[verifier::external_body]
pub(crate) fn keys_insert(m: &mut BiMap<String, usize>, key: String, i: usize)
    ensures
        key_pairs(*final(m)) == pairs_after_insert(key_pairs(*old(m)), key@, i),
{
    m.insert(key, i);
}

/// `BiMap::get_by_left`: the index paired with the key, if any.
#[verifier::external_body]
pub(crate) fn keys_get_by_left(m: &BiMap<String, usize>, key: &str) -> (r: Option<usize>)
    ensures
        r == if key_pairs(*m).contains_key(key@) {
            Some(key_pairs(*m)[key@])
        } else {
            None
        },
{
    m.get_by_left(key).copied()
}

/// `BiMap::get_by_right`: a key paired with the index, if there is one.
#[verifier::external_body]
pub(crate) fn keys_get_by_right(m: &BiMap<String, usize>, i: usize) -> (r: Option<&String>)
    ensures
        r matches Some(key) ==> key_pairs(*m).contains_key(key@) && key_pairs(*m)[key@] == i,
        r is None ==> forall|k: Seq<char>| key_pairs(*m).contains_key(k) ==> key_pairs(*m)[k] != i,
{
    m.get_by_right(&i)
}

/// `BiMap::len`: the number of pairs, which are finitely many.
#[verifier::external_body]
pub(crate) fn keys_len(m: &BiMap<String, usize>) -> (n: usize)
    ensures
        size_of(key_pairs(*m)) == Some(n as nat),
{
    m.len()
}

/// `BiMap::clone`: the copy holds the same pairs.
#[verifier::external_body]
pub(crate) fn keys_clone(m: &BiMap<String, usize>) -> (c: BiMap<String, usize>)
    ensures
        key_pairs(c) == key_pairs(*m),
{
    m.clone()
}

/// Whether `pairs` numbers `items` in order: each item is paired with its
/// position, and nothing else is paired.
pub open spec fn is_indexing<L>(pairs: Map<L, usize>, items: Seq<L>) -> bool {
    &&& items.no_duplicates()
    &&& pairs.dom() =~= items.to_set()
    &&& forall|i: int| 0 <= i < items.len() ==> #[trigger] pairs[items[i]] == i
}

/// A left value that `pairs` pairs with `i`.
pub open spec fn item_at<L>(pairs: Map<L, usize>, i: int) -> L {
    choose|l: L| pairs.contains_key(l) && pairs[l] == i
}

/// The left values of `pairs` in the order of their indices.
pub open spec fn items_of<L>(pairs: Map<L, usize>) -> Seq<L> {
    Seq::new(pairs.len(), |i: int| item_at(pairs, i))
}

/// Whether `pairs` is a one-to-one numbering of its left values by
/// `0, 1, ...`.
pub open spec fn indexes<L>(pairs: Map<L, usize>) -> bool {
    is_indexing(pairs, items_of(pairs))
}

/// A numbering holds as many pairs as items and is determined by them.
pub proof fn lemma_indexing_items<L>(pairs: Map<L, usize>, items: Seq<L>)
    requires
        is_indexing(pairs, items),
    ensures
        pairs.dom().finite(),
        pairs.len() == items.len(),
        items_of(pairs) == items,
        indexes(pairs),
        forall|l: L| pairs.contains_key(l) ==> pairs[l] < items.len() && items[pairs[l] as int] == l,
{
    vstd::seq_lib::seq_to_set_is_finite(items);
    items.unique_seq_to_set();
    assert forall|l: L| pairs.contains_key(l) implies pairs[l] < items.len() && items[pairs[l] as int]
        == l by {
        assert(items.to_set().contains(l));
        let k = choose|k: int| 0 <= k < items.len() && items[k] == l;
        assert(pairs[items[k]] == k);
    }
    assert forall|i: int| 0 <= i < items.len() implies item_at(pairs, i) == items[i] by {
        assert(items.to_set().contains(items[i]));
        assert(pairs.contains_key(items[i]) && pairs[items[i]] == i);
        let l = item_at(pairs, i);
        assert(pairs.contains_key(l) && pairs[l] == i);
    }
    assert(items_of(pairs) =~= items);
}

/// Putting a new item with the next index into a numbering numbers the
/// items with the new one at the end.
pub proof fn lemma_indexing_insert<L>(pairs: Map<L, usize>, items: Seq<L>, item: L)
    requires
        is_indexing(pairs, items),
        !items.contains(item),
        items.len() <= usize::MAX,
    ensures
        is_indexing(pairs_after_insert(pairs, item, items.len() as usize), items.push(item)),
{
    let n = items.len() as usize;
    let after = pairs_after_insert(pairs, item, n);
    let longer = items.push(item);
    lemma_indexing_items(pairs, items);
    assert forall|l: L| after.dom().contains(l) <==> longer.to_set().contains(l) by {
        if longer.to_set().contains(l) {
            let k = choose|k: int| 0 <= k < longer.len() && longer[k] == l;
            if k < items.len() {
                assert(items.to_set().contains(items[k]));
                assert(pairs[items[k]] == k);
            }
        }
        if after.dom().contains(l) {
            if l == item {
                assert(longer[items.len() as int] == l);
            } else {
                assert(items.to_set().contains(l));
                let k = choose|k: int| 0 <= k < items.len() && items[k] == l;
                assert(longer[k] == l);
            }
        }
    }
    assert(after.dom() =~= longer.to_set());
    assert forall|i: int| 0 <= i < longer.len() implies #[trigger] after[longer[i]] == i by {
        if i < items.len() {
            assert(pairs[items[i]] == i);
        }
    }
}

/// The map that pairs each member of `chars`, in ascending order, with its
/// rank.
pub fn symbol_index(chars: &crate::charset::CharSet) -> (m: BiMap<char, usize>)
    requires
        chars.wf(),
    ensures
        is_indexing(symbol_pairs(m), chars.seq()),
{
    let mut m = symbols_new();
    let n = chars.len();
    let mut i: usize = 0;
    proof {
        chars.lemma_seq();
        assert(chars.seq().take(0) =~= Seq::<char>::empty());
        assert(symbol_pairs(m).dom() =~= chars.seq().take(0).to_set());
    }
    while i < n
        invariant
            chars.wf(),
            n == chars.seq().len(),
            i <= n,
            chars.seq().no_duplicates(),
            is_indexing(symbol_pairs(m), chars.seq().take(i as int)),
        decreases n - i,
    {
        let c = chars.get(i);
        proof {
            let items = chars.seq().take(i as int);
            if items.contains(c) {
                let k = choose|k: int| 0 <= k < items.len() && items[k] == c;
                assert(chars.seq()[k] == chars.seq()[i as int]);
            }
            lemma_indexing_insert(symbol_pairs(m), items, c);
            assert(items.push(c) =~= chars.seq().take(i as int + 1));
        }
        symbols_insert(&mut m, c, i);
        i = i + 1;
    }
    proof {
        assert(chars.seq().take(n as int) =~= chars.seq());
    }
    m
}

/// The texts of `keys`.
pub open spec fn key_views(keys: Seq<String>) -> Seq<Seq<char>> {
    keys.map_values(|k: String| k@)
}

/// The map that pairs each of `keys`, which differ from one another, with its
/// position.
pub fn key_index(keys: &Vec<String>) -> (m: BiMap<String, usize>)
    requires
        key_views(keys@).no_duplicates(),
    ensures
        is_indexing(key_pairs(m), key_views(keys@)),
{
    let mut m = keys_new();
    let n = keys.len();
    let mut i: usize = 0;
    let ghost views = key_views(keys@);
    proof {
        assert(views.take(0) =~= Seq::<Seq<char>>::empty());
        assert(key_pairs(m).dom() =~= views.take(0).to_set());
    }
    while i < n
        invariant
            n == keys@.len(),
            views == key_views(keys@),
            i <= n,
            views.no_duplicates(),
            is_indexing(key_pairs(m), views.take(i as int)),
        decreases n - i,
    {
        let key = keys[i].clone();
        proof {
            let items = views.take(i as int);
            assert(key@ == views[i as int]);
            if items.contains(key@) {
                let k = choose|k: int| 0 <= k < items.len() && items[k] == key@;
                assert(views[k] == views[i as int]);
            }
            lemma_indexing_insert(key_pairs(m), items, key@);
            assert(items.push(key@) =~= views.take(i as int + 1));
        }
        keys_insert(&mut m, key, i);
        i = i + 1;
    }
    proof {
        assert(views.take(n as int) =~= views);
    }
    m
}


/// The map that pairs each of `items` with its position.
pub open spec fn numbering<L>(items: Seq<L>) -> Map<L, usize> {
    Map::new(|l: L| items.contains(l), |l: L| items.index_of(l) as usize)
}

/// A numbering of items is the map of each item to its position.
pub proof fn lemma_indexing_is_numbering<L>(pairs: Map<L, usize>, items: Seq<L>)
    requires
        is_indexing(pairs, items),
    ensures
        pairs == numbering(items),
{
    lemma_indexing_items(pairs, items);
    assert forall|l: L| pairs.contains_key(l) <==> numbering(items).contains_key(l) by {
        if pairs.contains_key(l) {
            assert(items.to_set().contains(l));
        }
        if items.contains(l) {
            assert(items.to_set().contains(l));
        }
    }
    assert forall|l: L| pairs.contains_key(l) implies pairs[l] == numbering(items)[l] by {
        let k = items.index_of(l);
        assert(items.contains(l));
        assert(items[k] == l);
        assert(pairs[items[k]] == k);
    }
    assert(pairs =~= numbering(items));
}


/// Whether `pairs` pairs some left value with `i`.
pub open spec fn has_item<L>(pairs: Map<L, usize>, i: int) -> bool {
    exists|l: L| pairs.contains_key(l) && pairs[l] == i
}

/// A finite map that pairs some left value with each index below its size
/// is a one-to-one numbering.
pub proof fn lemma_full_is_indexing<L>(pairs: Map<L, usize>)
    requires
        pairs.dom().finite(),
        forall|i: int| 0 <= i < pairs.len() ==> #[trigger] has_item(pairs, i),
    ensures
        indexes(pairs),
{
    let items = items_of(pairs);
    assert forall|i: int| 0 <= i < items.len() implies pairs.contains_key(#[trigger] items[i])
        && pairs[items[i]] == i by {
        assert(has_item(pairs, i));
        let l = choose|l: L| pairs.contains_key(l) && pairs[l] == i;
        assert(pairs.contains_key(l) && pairs[l] == i);
    }
    assert forall|i: int, j: int| 0 <= i < items.len() && 0 <= j < items.len() && i != j implies items[i]
        != items[j] by {
        assert(pairs[items[i]] == i);
        assert(pairs[items[j]] == j);
    }
    assert(items.to_set().subset_of(pairs.dom())) by {
        assert forall|l: L| items.to_set().contains(l) implies pairs.dom().contains(l) by {
            let k = choose|k: int| 0 <= k < items.len() && items[k] == l;
            assert(pairs.contains_key(items[k]));
        }
    }
    vstd::seq_lib::seq_to_set_is_finite(items);
    items.unique_seq_to_set();
    vstd::set_lib::lemma_subset_equality(items.to_set(), pairs.dom());
    assert forall|i: int| 0 <= i < items.len() implies #[trigger] pairs[items[i]] == i by {
        assert(pairs.contains_key(items[i]) && pairs[items[i]] == i);
    }
}


/// Tells whether the character map is a one-to-one numbering.
pub fn symbols_numbered(m: &BiMap<char, usize>) -> (ok: bool)
    ensures
        ok == indexes(symbol_pairs(*m)),
        symbol_pairs(*m).dom().finite(),
{
    let ghost pairs = symbol_pairs(*m);
    let n = symbols_len(m);
    let mut i: usize = 0;
    while i < n
        invariant
            i <= n,
            pairs == symbol_pairs(*m),
            pairs.dom().finite(),
            n == pairs.len(),
            forall|k: int| 0 <= k < i ==> #[trigger] has_item(pairs, k),
        decreases n - i,
    {
        match symbols_get_by_right(m, i) {
            Some(c) => {
                proof {
                    assert(pairs.contains_key(c) && pairs[c] == i);
                }
            },
            None => {
                proof {
                    if indexes(pairs) {
                        lemma_indexing_items(pairs, items_of(pairs));
                        let l = items_of(pairs)[i as int];
                        assert(items_of(pairs).to_set().contains(l));
                        assert(pairs.contains_key(l) && pairs[l] == i);
                    }
                }
                return false;
            },
        }
        i = i + 1;
    }
    proof {
        lemma_full_is_indexing(pairs);
    }
    true
}

/// Tells whether the key map is a one-to-one numbering.
pub fn keys_numbered(m: &BiMap<String, usize>) -> (ok: bool)
    ensures
        ok == indexes(key_pairs(*m)),
        key_pairs(*m).dom().finite(),
{
    let ghost pairs = key_pairs(*m);
    let n = keys_len(m);
    let mut i: usize = 0;
    while i < n
        invariant
            i <= n,
            pairs == key_pairs(*m),
            pairs.dom().finite(),
            n == pairs.len(),
            forall|k: int| 0 <= k < i ==> #[trigger] has_item(pairs, k),
        decreases n - i,
    {
        match keys_get_by_right(m, i) {
            Some(key) => {
                proof {
                    assert(pairs.contains_key(key@) && pairs[key@] == i);
                }
            },
            None => {
                proof {
                    if indexes(pairs) {
                        lemma_indexing_items(pairs, items_of(pairs));
                        let l = items_of(pairs)[i as int];
                        assert(items_of(pairs).to_set().contains(l));
                        assert(pairs.contains_key(l) && pairs[l] == i);
                    }
                }
                return false;
            },
        }
        i = i + 1;
    }
    proof {
        lemma_full_is_indexing(pairs);
    }
    true
}


} // verus!
