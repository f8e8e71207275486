//! Selecting, from a stream of items, the one whose key is greatest, where
//! finding an item's key may fail.

use std::cmp::Ordering;
use vstd::laws_cmp::*;
use vstd::laws_eq::*;
use vstd::prelude::*;
use vstd::std_specs::cmp::{OrdSpec, PartialEqSpec, PartialOrdSpec};
use vstd::std_specs::iter::IteratorSpec;

verus! {

/// `a` ranks strictly above `b`.
pub open spec fn outranks<K: Ord>(a: K, b: K) -> bool {
    a.cmp_spec(&b) == Ordering::Greater
}

/// Position `i` of `keys` holds the winning key: it is present, it ranks
/// strictly above every key before it, and no key after it ranks above it.
pub open spec fn is_winner<K: Ord>(keys: Seq<Option<K>>, i: int) -> bool {
    &&& 0 <= i < keys.len()
    &&& keys[i] is Some
    &&& forall|j: int| 0 <= j < i && keys[j] is Some ==> outranks(keys[i]->0, #[trigger] keys[j]->0)
    &&& forall|j: int|
        i < j < keys.len() && keys[j] is Some ==> !outranks(#[trigger] keys[j]->0, keys[i]->0)
}

/// The position of the winning key, if any key is present.
pub open spec fn winner_index<K: Ord>(keys: Seq<Option<K>>) -> Option<int> {
    if exists|i: int| is_winner(keys, i) {
        Some(choose|i: int| is_winner(keys, i))
    } else {
        None
    }
}

/// The item that wins when `keys[i]` is what the key lookup gave for `items[i]`.
pub open spec fn select_max<T, K: Ord>(items: Seq<T>, keys: Seq<Option<K>>) -> Option<T> {
    match winner_index(keys) {
        Some(i) => Some(items[i]),
        None => None,
    }
}

/// `keys` is a possible outcome of looking up the key of each of `items` in turn.
pub open spec fn keyed_by<T, K, F: Fn(&T) -> Option<K>>(
    key_fn: F,
    items: Seq<T>,
    keys: Seq<Option<K>>,
) -> bool {
    &&& keys.len() == items.len()
    &&& forall|i: int| 0 <= i < items.len() ==> key_fn.ensures((&#[trigger] items[i],), keys[i])
}

/// The key lookup can find no key for any of `items`.
pub open spec fn never_keyed<T, K, F: Fn(&T) -> Option<K>>(key_fn: F, items: Seq<T>) -> bool {
    forall|i: int, key: Option<K>|
        0 <= i < items.len() && #[trigger] key_fn.ensures((&items[i],), key) ==> key is None
}

/// Under the laws of a total order `cmp` returns what `cmp_spec` says.
pub proof fn lemma_cmp_obeys_spec<K: Ord>()
    requires
        obeys_cmp::<K>(),
    ensures
        K::obeys_cmp_spec(),
{
    reveal(obeys_cmp_ord);
}

/// Of two keys at most one ranks above the other.
pub proof fn lemma_outranks_flip<K: Ord>(a: K, b: K)
    requires
        obeys_cmp::<K>(),
        outranks(a, b),
    ensures
        !outranks(b, a),
{
    reveal(obeys_cmp_ord);
    reveal(obeys_partial_cmp_spec_properties);
    assert(a.partial_cmp_spec(&b) == Some(a.cmp_spec(&b)));
    assert(b.partial_cmp_spec(&a) == Some(b.cmp_spec(&a)));
}

/// A key that ranks above `b` also ranks above whatever does not rank above `b`.
pub proof fn lemma_outranks_chain<K: Ord>(a: K, b: K, c: K)
    requires
        obeys_cmp::<K>(),
        outranks(a, b),
        !outranks(c, b),
    ensures
        outranks(a, c),
{
    reveal(obeys_cmp_ord);
    reveal(obeys_cmp_partial_ord);
    reveal(obeys_partial_cmp_spec_properties);
    reveal(obeys_eq_spec_properties);
    let ab = a.partial_cmp_spec(&b);
    let cb = c.partial_cmp_spec(&b);
    let bc = b.partial_cmp_spec(&c);
    let ac = a.partial_cmp_spec(&c);
    let ca = c.partial_cmp_spec(&a);
    let ba = b.partial_cmp_spec(&a);
    assert(ab == Some(a.cmp_spec(&b)));
    assert(cb == Some(c.cmp_spec(&b)));
    assert(bc == Some(b.cmp_spec(&c)));
    assert(ac == Some(a.cmp_spec(&c)));
    assert(ca == Some(c.cmp_spec(&a)));
    assert(ba == Some(b.cmp_spec(&a)));
    if c.cmp_spec(&b) == Ordering::Less {
        assert(bc == Some(Ordering::Greater));
    } else {
        assert(c.eq_spec(&b));
        assert(b.eq_spec(&c));
        if a.cmp_spec(&c) == Ordering::Equal {
            assert(a.eq_spec(&c));
            assert(c.eq_spec(&a));
            assert(b.eq_spec(&a));
            assert(a.eq_spec(&b));
        } else if a.cmp_spec(&c) == Ordering::Less {
            assert(ca == Some(Ordering::Greater));
            assert(c.partial_cmp_spec(&b) == Some(Ordering::Greater));
        }
    }
}

/// No position wins twice: the winner of `keys` is unique.
pub proof fn lemma_winner_unique<K: Ord>(keys: Seq<Option<K>>, i: int, j: int)
    requires
        is_winner(keys, i),
        is_winner(keys, j),
    ensures
        i == j,
{
}

/// The winner found at position `i` is the item that is selected.
pub proof fn lemma_select_max_at<T, K: Ord>(items: Seq<T>, keys: Seq<Option<K>>, i: int)
    requires
        is_winner(keys, i),
    ensures
        winner_index(keys) == Some(i),
        select_max(items, keys) == Some(items[i]),
{
    lemma_winner_unique(keys, i, choose|w: int| is_winner(keys, w));
}

/// Where no key is present, nothing is selected.
pub proof fn lemma_select_max_none<T, K: Ord>(items: Seq<T>, keys: Seq<Option<K>>)
    requires
        forall|i: int| 0 <= i < keys.len() ==> keys[i] is None,
    ensures
        winner_index(keys) is None,
        select_max(items, keys) is None,
{
}

/// Among keys that compare equal a later one never wins.
pub proof fn lemma_tie_keeps_first<K: Ord>(keys: Seq<Option<K>>, first: int, second: int)
    requires
        obeys_cmp::<K>(),
        0 <= first < second < keys.len(),
        keys[first] is Some,
        keys[second] is Some,
        keys[first]->0.cmp_spec(&keys[second]->0) == Ordering::Equal,
    ensures
        !is_winner(keys, second),
        winner_index(keys) != Some(second),
{
    let a = keys[first]->0;
    let b = keys[second]->0;
    reveal(obeys_cmp_ord);
    reveal(obeys_cmp_partial_ord);
    reveal(obeys_partial_cmp_spec_properties);
    reveal(obeys_eq_spec_properties);
    assert(a.partial_cmp_spec(&b) == Some(a.cmp_spec(&b)));
    assert(b.partial_cmp_spec(&a) == Some(b.cmp_spec(&a)));
    assert(a.eq_spec(&b));
    assert(b.eq_spec(&a));
    assert(!outranks(b, a));
}

/// The first item whose key no other key ranks above is selected: where
/// several items share the greatest key, the earliest of them wins.
pub proof fn lemma_first_of_greatest_wins<T, K: Ord>(
    items: Seq<T>,
    keys: Seq<Option<K>>,
    first: int,
)
    requires
        obeys_cmp::<K>(),
        0 <= first < keys.len(),
        keys[first] is Some,
        forall|j: int|
            0 <= j < keys.len() && keys[j] is Some ==> !outranks(
                #[trigger] keys[j]->0,
                keys[first]->0,
            ),
        forall|j: int|
            0 <= j < first && keys[j] is Some ==> (#[trigger] keys[j]->0).cmp_spec(&keys[first]->0)
                != Ordering::Equal,
    ensures
        select_max(items, keys) == Some(items[first]),
{
    let top = keys[first]->0;
    assert forall|j: int| 0 <= j < first && keys[j] is Some implies outranks(
        top,
        #[trigger] keys[j]->0,
    ) by {
        let key = keys[j]->0;
        reveal(obeys_cmp_ord);
        reveal(obeys_partial_cmp_spec_properties);
        assert(!outranks(key, top));
        assert(key.partial_cmp_spec(&top) == Some(key.cmp_spec(&top)));
        assert(top.partial_cmp_spec(&key) == Some(top.cmp_spec(&key)));
    }
    lemma_select_max_at(items, keys, first);
}

/// An item whose key is replaced by one that ranks above every other key
/// is selected, wherever it stands.
pub proof fn lemma_raised_key_wins<T, K: Ord>(
    items: Seq<T>,
    keys: Seq<Option<K>>,
    at: int,
    raised: K,
)
    requires
        obeys_cmp::<K>(),
        0 <= at < keys.len(),
        forall|j: int|
            0 <= j < keys.len() && j != at && keys[j] is Some ==> outranks(
                raised,
                #[trigger] keys[j]->0,
            ),
    ensures
        is_winner(keys.update(at, Some(raised)), at),
        forall|i: int| is_winner(keys.update(at, Some(raised)), i) ==> i == at,
        winner_index(keys.update(at, Some(raised))) == Some(at),
        select_max(items, keys.update(at, Some(raised))) == Some(items[at]),
{
    let after = keys.update(at, Some(raised));
    assert forall|j: int| at < j < after.len() && after[j] is Some implies !outranks(
        #[trigger] after[j]->0,
        raised,
    ) by {
        assert(outranks(raised, keys[j]->0));
        lemma_outranks_flip(raised, keys[j]->0);
    }
    assert forall|j: int| 0 <= j < at && after[j] is Some implies outranks(
        raised,
        #[trigger] after[j]->0,
    ) by {
        assert(outranks(raised, keys[j]->0));
    }
    lemma_select_max_at(items, after, at);
}

/// Something is selected exactly where some key is present.
pub proof fn lemma_select_max_some<T, K: Ord>(items: Seq<T>, keys: Seq<Option<K>>)
    requires
        obeys_cmp::<K>(),
    ensures
        select_max(items, keys) is Some <==> exists|i: int| 0 <= i < keys.len() && keys[i] is Some,
    decreases keys.len(),
{
    if exists|i: int| 0 <= i < keys.len() && keys[i] is Some {
        let i = choose|i: int| 0 <= i < keys.len() && keys[i] is Some;
        let shorter = keys.drop_last();
        let last = keys.len() - 1;
        if exists|j: int| 0 <= j < shorter.len() && shorter[j] is Some {
            lemma_select_max_some(items, shorter);
            let w = choose|w: int| is_winner(shorter, w);
            assert(is_winner(shorter, w));
            if keys[last] is Some && outranks(keys[last]->0, keys[w]->0) {
                assert forall|j: int| 0 <= j < last && keys[j] is Some implies outranks(
                    keys[last]->0,
                    #[trigger] keys[j]->0,
                ) by {
                    assert(shorter[j] == keys[j]);
                    if j < w {
                        assert(outranks(shorter[w]->0, shorter[j]->0));
                        lemma_outranks_flip(keys[w]->0, keys[j]->0);
                    } else if j > w {
                        assert(!outranks(shorter[j]->0, shorter[w]->0));
                    }
                    if j != w {
                        lemma_outranks_chain(keys[last]->0, keys[w]->0, keys[j]->0);
                    }
                }
                assert(is_winner(keys, last));
            } else {
                assert forall|j: int| w < j < keys.len() && keys[j] is Some implies !outranks(
                    #[trigger] keys[j]->0,
                    keys[w]->0,
                ) by {
                    if j < last {
                        assert(shorter[j] == keys[j]);
                        assert(!outranks(shorter[j]->0, shorter[w]->0));
                    }
                }
                assert forall|j: int| 0 <= j < w && keys[j] is Some implies outranks(
                    keys[w]->0,
                    #[trigger] keys[j]->0,
                ) by {
                    assert(shorter[j] == keys[j]);
                    assert(outranks(shorter[w]->0, shorter[j]->0));
                }
                assert(is_winner(keys, w));
            }
        } else {
            assert forall|j: int| 0 <= j < last implies keys[j] is None by {
                assert(shorter[j] == keys[j]);
            }
            assert(i == last);
            assert(is_winner(keys, last));
        }
    }
}

/// One round of the selection: the challenger takes the holder's place only
/// where its key ranks strictly above the holder's, so that of equal keys the
/// earlier stays.
pub fn contend<T, K: Ord>(holder: (T, K), challenger: (T, K)) -> (kept: (T, K))
    requires
        obeys_cmp::<K>(),
    ensures
        kept == if outranks(challenger.1, holder.1) {
            challenger
        } else {
            holder
        },
{
    proof {
        lemma_cmp_obeys_spec::<K>();
    }
    match challenger.1.cmp(&holder.1) {
        Ordering::Greater => challenger,
        Ordering::Equal | Ordering::Less => holder,
    }
}

/// Streams of items, of which the one with the greatest key can be asked for.
pub trait IterExt: Iterator + Sized {
    /// Returns the item with the greatest key, where `key_fn` may find no key
    /// for an item. Such an item is passed over. Among items whose keys are
    /// equal the one that came first is kept. Nothing is returned where the
    /// stream is empty or no item has a key.
    fn max_by_maybe_key<F, K>(self, key_fn: F) -> (winner: Option<Self::Item>) where
        F: Fn(&Self::Item) -> Option<K>,
        K: Ord,

        requires
            self.obeys_prophetic_iter_laws(),
            self.decrease() is Some,
            forall|i: int|
                0 <= i < self.remaining().len() ==> key_fn.requires((&#[trigger] self.remaining()[i],)),
            obeys_cmp::<K>(),
        ensures
            exists|keys: Seq<Option<K>>| #[trigger]
                keyed_by(key_fn, self.remaining(), keys) && winner == select_max(
                    self.remaining(),
                    keys,
                ),
            self.remaining().len() == 0 ==> winner is None,
            never_keyed(key_fn, self.remaining()) ==> winner is None,
    {
        let mut iter = self;
        let mut best: Option<(Self::Item, K)> = None;
        let ghost mut keys: Seq<Option<K>> = Seq::empty();
        let ghost mut at: int = 0;
        let ghost mut n: int = 0;
        loop
            invariant
                obeys_cmp::<K>(),
                iter.obeys_prophetic_iter_laws(),
                iter.decrease() is Some,
                0 <= n <= self.remaining().len(),
                iter.remaining() == self.remaining().skip(n),
                forall|i: int|
                    0 <= i < self.remaining().len() ==> key_fn.requires(
                        (&#[trigger] self.remaining()[i],),
                    ),
                keyed_by(key_fn, self.remaining().take(n), keys),
                match best {
                    Some((item, key)) => is_winner(keys, at) && item == self.remaining()[at] && keys[at]
                        == Some(key),
                    None => forall|i: int| 0 <= i < n ==> keys[i] is None,
                },
            ensures
                n == self.remaining().len(),
            decreases iter.decrease()->0,
        {
            match iter.next() {
                None => {
                    break ;
                },
                Some(item) => {
                    assert(item == self.remaining()[n]);
                    let found = key_fn(&item);
                    let ghost before = keys;
                    proof {
                        keys = keys.push(found);
                        assert(self.remaining().skip(n).drop_first() == self.remaining().skip(n + 1));
                        assert(self.remaining().take(n + 1) == self.remaining().take(n).push(item));
                    }
                    match found {
                        None => {},
                        Some(key) => {
                            best =
                            match best {
                                None => {
                                    proof {
                                        at = n;
                                    }
                                    Some((item, key))
                                },
                                Some(holder) => {
                                    proof {
                                        if outranks(key, holder.1) {
                                            assert forall|j: int|
                                                0 <= j < n && keys[j] is Some implies outranks(
                                                key,
                                                #[trigger] keys[j]->0,
                                            ) by {
                                                if j != at {
                                                    if j < at {
                                                        lemma_outranks_flip(holder.1, before[j]->0);
                                                    }
                                                    lemma_outranks_chain(key, holder.1, before[j]->0);
                                                }
                                            }
                                            at = n;
                                        }
                                    }
                                    Some(contend(holder, (item, key)))
                                },
                            };
                        },
                    }
                    proof {
                        n = n + 1;
                    }
                },
            }
        }
        proof {
            assert(self.remaining().take(n) == self.remaining());
            if best is Some {
                lemma_select_max_at(self.remaining(), keys, at);
            } else {
                lemma_select_max_none(self.remaining(), keys);
            }
        }
        match best {
            None => None,
            Some((item, _)) => Some(item),
        }
    }
}

impl<T> IterExt for T where T: Iterator + Sized {
}

} // verus!
