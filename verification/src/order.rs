//! Ranking of sizes, largest first, equal sizes in the order they stand in.
//!
//! A size at position `i` is ranked by the key `(u64::MAX - size, i)`.
//! Ascending order of keys is descending order of sizes, and among equal
//! sizes the earlier position comes first, so ranking is a stable sort.

use vstd::prelude::*;
use vstd::relations::{sorted_by, total_ordering};
use vstd::seq_lib::lemma_sorted_unique;

verus! {

/// A size turned upside down, with the position it came from.
pub type Key = (u64, usize);

/// Lexicographic order on keys.
pub open spec fn key_le(a: Key, b: Key) -> bool {
    a.0 < b.0 || (a.0 == b.0 && a.1 <= b.1)
}

/// `key_le` as a relation value.
pub open spec fn by_key() -> spec_fn(Key, Key) -> bool {
    |a: Key, b: Key| key_le(a, b)
}

/// The key of each size, in the order of the sizes.
pub open spec fn size_keys(sizes: Seq<u64>) -> Seq<Key> {
    Seq::new(sizes.len(), |i: int| ((u64::MAX - sizes[i]) as u64, i as usize))
}

/// A key that stands for a size above zero.
pub open spec fn is_positive(key: Key) -> bool {
    key.0 < u64::MAX
}

/// `is_positive` as a predicate value.
pub open spec fn positive() -> spec_fn(Key) -> bool {
    |key: Key| is_positive(key)
}

/// The keys of the sizes above zero, in the order of the sizes.
pub open spec fn positive_keys(sizes: Seq<u64>) -> Seq<Key> {
    size_keys(sizes).filter(positive())
}

/// The keys in ascending order: sizes largest first, ties by position.
pub open spec fn ranked(keys: Seq<Key>) -> Seq<Key> {
    keys.sort_by(by_key())
}

/// The size that a key stands for.
pub open spec fn key_size(key: Key) -> u64 {
    (u64::MAX - key.0) as u64
}

pub proof fn lemma_key_order_is_total()
    ensures
        total_ordering(by_key()),
{
}

/// What ranking does: the result is ordered, and it holds the same keys as
/// often as the input.
pub proof fn lemma_ranked(keys: Seq<Key>)
    ensures
        ranked(keys).len() == keys.len(),
        ranked(keys).to_multiset() == keys.to_multiset(),
        forall|i: int, j: int|
            0 <= i < j < keys.len() ==> key_le(#[trigger] ranked(keys)[i], #[trigger] ranked(keys)[j]),
        forall|i: int| 0 <= i < keys.len() ==> keys.contains(#[trigger] ranked(keys)[i]),
{
    broadcast use vstd::seq_lib::group_to_multiset_ensures;

    lemma_key_order_is_total();
    keys.lemma_sort_by_ensures(by_key());
    let r = ranked(keys);
    assert(r.len() == keys.len()) by {
        vstd::seq_lib::to_multiset_len(r);
        vstd::seq_lib::to_multiset_len(keys);
    }
    assert forall|i: int, j: int| 0 <= i < j < keys.len() implies key_le(
        #[trigger] r[i],
        #[trigger] r[j],
    ) by {
        assert(by_key()(r[i], r[j]));
    }
    assert forall|i: int| 0 <= i < keys.len() implies keys.contains(#[trigger] r[i]) by {
        assert(r.contains(r[i]));
        vstd::seq_lib::to_multiset_contains(r, r[i]);
        vstd::seq_lib::to_multiset_contains(keys, r[i]);
    }
}

/// Ranking the keys of a list of sizes permutes the positions: every ranked
/// key is the key of the position it names, and no position is named twice.
pub proof fn lemma_ranked_positions(sizes: Seq<u64>)
    requires
        sizes.len() <= usize::MAX,
    ensures
        forall|k: int|
            0 <= k < sizes.len() ==> {
                let key = #[trigger] ranked(size_keys(sizes))[k];
                key.1 < sizes.len() && key.0 == u64::MAX - sizes[key.1 as int]
            },
        forall|a: int, b: int|
            0 <= a < sizes.len() && 0 <= b < sizes.len() && a != b ==> (#[trigger] ranked(
                size_keys(sizes),
            )[a]).1 != (#[trigger] ranked(size_keys(sizes))[b]).1,
{
    let keys = size_keys(sizes);
    let r = ranked(keys);
    lemma_ranked(keys);
    assert forall|k: int| 0 <= k < sizes.len() implies {
        let key = #[trigger] r[k];
        key.1 < sizes.len() && key == keys[key.1 as int]
    } by {
        assert(keys.contains(r[k]));
        let i = choose|i: int| 0 <= i < keys.len() && keys[i] == r[k];
        assert(keys[i].1 == i);
    }
    assert(keys.no_duplicates());
    keys.lemma_multiset_has_no_duplicates();
    r.lemma_multiset_has_no_duplicates_conv();
    assert forall|a: int, b: int|
        0 <= a < sizes.len() && 0 <= b < sizes.len() && a != b implies (#[trigger] r[a]).1 != (
    #[trigger] r[b]).1 by {
        if r[a].1 == r[b].1 {
            assert(r[a] == keys[r[a].1 as int]);
            assert(r[b] == keys[r[b].1 as int]);
            assert(r[a] == r[b]);
        }
    }
}

/// Ranking leaves no position out.
pub proof fn lemma_ranked_onto(sizes: Seq<u64>, pos: int)
    requires
        sizes.len() <= usize::MAX,
        0 <= pos < sizes.len(),
    ensures
        exists|k: int| 0 <= k < sizes.len() && (#[trigger] ranked(size_keys(sizes))[k]).1 == pos,
{
    let keys = size_keys(sizes);
    let order = ranked(keys);
    lemma_ranked(keys);
    assert(keys.contains(keys[pos]));
    vstd::seq_lib::to_multiset_contains(keys, keys[pos]);
    vstd::seq_lib::to_multiset_contains(order, keys[pos]);
    let k = choose|k: int| 0 <= k < order.len() && order[k] == keys[pos];
    assert(order[k].1 == pos);
}

/// Keeping the keys of sizes above zero: appending a key appends it to what
/// is kept, if it is kept.
pub proof fn lemma_positive_push(keys: Seq<Key>, key: Key)
    ensures
        keys.push(key).filter(positive()) == if is_positive(key) {
            keys.filter(positive()).push(key)
        } else {
            keys.filter(positive())
        },
{
    reveal(Seq::filter);
    assert(keys.push(key).drop_last() =~= keys);
}

/// The keys of the sizes above zero stand each for the size at the position
/// it names.
pub proof fn lemma_positive_keys(sizes: Seq<u64>)
    requires
        sizes.len() <= usize::MAX,
    ensures
        positive_keys(sizes).len() <= sizes.len(),
        forall|i: int|
            0 <= i < positive_keys(sizes).len() ==> {
                let key = #[trigger] positive_keys(sizes)[i];
                &&& key.1 < sizes.len()
                &&& key_size(key) == sizes[key.1 as int]
                &&& sizes[key.1 as int] > 0
            },
    decreases sizes.len(),
{
    let kept = positive_keys(sizes);
    if sizes.len() == 0 {
        reveal(Seq::filter);
    } else {
        let shorter = sizes.drop_last();
        lemma_positive_keys(shorter);
        let last = size_keys(sizes).last();
        assert(size_keys(sizes) =~= size_keys(shorter).push(last));
        lemma_positive_push(size_keys(shorter), last);
        let before = positive_keys(shorter);
        assert forall|i: int| 0 <= i < kept.len() implies {
            let key = #[trigger] kept[i];
            &&& key.1 < sizes.len()
            &&& key_size(key) == sizes[key.1 as int]
            &&& sizes[key.1 as int] > 0
        } by {
            if i < before.len() {
                assert(kept[i] == before[i]);
                assert(shorter[before[i].1 as int] == sizes[before[i].1 as int]);
            }
        }
    }
}

/// `<[T]>::sort` on a vector of integer pairs. The standard library documents
/// it as sorting in ascending order of the elements, which for tuples is the
/// lexicographic order; a sort rearranges and neither adds nor drops.
#[verifier::external_body]
fn sort_pairs(keys: &mut Vec<Key>)
    ensures
        final(keys)@.to_multiset() == old(keys)@.to_multiset(),
        forall|i: int, j: int|
            0 <= i < j < final(keys)@.len() ==> key_le(
                #[trigger] final(keys)@[i],
                #[trigger] final(keys)@[j],
            ),
{
    keys.sort();
}

/// Puts the keys into ascending order.
pub fn rank(keys: &mut Vec<Key>)
    ensures
        final(keys)@ == ranked(old(keys)@),
{
    sort_pairs(keys);
    proof {
        lemma_key_order_is_total();
        lemma_ranked(old(keys)@);
        old(keys)@.lemma_sort_by_ensures(by_key());
        assert(sorted_by(keys@, by_key()));
        lemma_sorted_unique(keys@, ranked(old(keys)@), by_key());
    }
}

} // verus!
