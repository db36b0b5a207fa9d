//! Sizes and counts of the files of a tree by type, the type with the most
//! bytes first.

use vstd::prelude::*;
use vstd::string::*;
use crate::model::{sat_add, Node, Tree};
use crate::paths::{file_type_key, type_key};
use crate::scanner::bump;
use crate::text::chars_of;

verus! {

/// The bytes and the number of the files of one type.
#[derive(Debug)]
pub struct TypeStat {
    pub key: String,
    pub bytes: u64,
    pub files: u64,
}

impl Clone for TypeStat {
    fn clone(&self) -> (copy: TypeStat)
        ensures
            copy@ == self@,
    {
        TypeStat { key: self.key.clone(), bytes: self.bytes, files: self.files }
    }
}

/// Mathematical value of a [`TypeStat`].
pub ghost struct TypeTotal {
    pub key: Seq<char>,
    pub bytes: u64,
    pub files: u64,
}

impl View for TypeStat {
    type V = TypeTotal;

    open spec fn view(&self) -> TypeTotal {
        TypeTotal { key: self.key@, bytes: self.bytes, files: self.files }
    }
}

/// The mathematical values of a list of totals.
pub open spec fn totals_of(stats: Seq<TypeStat>) -> Seq<TypeTotal> {
    Seq::new(stats.len(), |i: int| stats[i]@)
}

/// The position of the first total for `key`, or the length where there
/// is none.
pub open spec fn position_of(totals: Seq<TypeTotal>, key: Seq<char>) -> int
    decreases totals.len(),
{
    if totals.len() == 0 {
        0
    } else if totals[0].key == key {
        0
    } else {
        1 + position_of(totals.drop_first(), key)
    }
}

/// The totals after one more file of type `key` and of `size` bytes: the
/// total of its type grows, or a new total is added at the end.
pub open spec fn tallied(totals: Seq<TypeTotal>, key: Seq<char>, size: u64) -> Seq<TypeTotal> {
    let at = position_of(totals, key);
    if 0 <= at < totals.len() {
        totals.update(
            at,
            TypeTotal {
                key,
                bytes: sat_add(totals[at].bytes, size),
                files: bump(totals[at].files),
            },
        )
    } else {
        totals.push(TypeTotal { key, bytes: size, files: 1 })
    }
}

/// The totals and the sum of all sizes so far.
pub ghost struct Collected {
    pub totals: Seq<TypeTotal>,
    pub bytes: u64,
}

/// What is collected after the files of the subtree `t`: every entry
/// without children counts as a file of the type of its path.
pub open spec fn collect_node(t: Tree, so_far: Collected) -> Collected
    decreases t, 1int, 0int,
{
    if t.children.len() == 0 {
        Collected {
            totals: tallied(so_far.totals, type_key(t.path), t.size),
            bytes: sat_add(so_far.bytes, t.size),
        }
    } else {
        collect_children(t, 0, so_far)
    }
}

/// What is collected after the files below the children of `t` from
/// position `from` on.
pub open spec fn collect_children(t: Tree, from: int, so_far: Collected) -> Collected
    decreases t, 0int, t.children.len() - from,
{
    if from < 0 || from >= t.children.len() {
        so_far
    } else {
        collect_children(t, from + 1, collect_node(t.children[from], so_far))
    }
}

proof fn lemma_position_of(totals: Seq<TypeTotal>, key: Seq<char>)
    ensures
        0 <= position_of(totals, key) <= totals.len(),
        position_of(totals, key) < totals.len() ==> totals[position_of(totals, key)].key == key,
        forall|i: int| 0 <= i < position_of(totals, key) ==> (#[trigger] totals[i]).key != key,
    decreases totals.len(),
{
    if totals.len() > 0 && totals[0].key != key {
        let rest = totals.drop_first();
        lemma_position_of(rest, key);
        assert forall|i: int| 0 <= i < position_of(totals, key) implies (
        #[trigger] totals[i]).key != key by {
            if i > 0 {
                assert(totals[i] == rest[i - 1]);
            }
        }
    }
}

proof fn lemma_position_is(totals: Seq<TypeTotal>, key: Seq<char>, at: int)
    requires
        0 <= at <= totals.len(),
        at < totals.len() ==> totals[at].key == key,
        forall|i: int| 0 <= i < at ==> (#[trigger] totals[i]).key != key,
    ensures
        position_of(totals, key) == at,
{
    lemma_position_of(totals, key);
}

/// Counts one more file of type `key` and of `size` bytes.
fn tally(stats: &mut Vec<TypeStat>, key: String, size: u64)
    ensures
        totals_of(final(stats)@) == tallied(totals_of(old(stats)@), key@, size),
{
    let ghost before = totals_of(stats@);
    let mut i: usize = 0;
    while i < stats.len()
        invariant
            i <= stats@.len(),
            stats@ == old(stats)@,
            forall|k: int| 0 <= k < i ==> (#[trigger] before[k]).key != key@,
            before == totals_of(stats@),
        decreases stats@.len() - i,
    {
        if stats[i].key == key {
            proof {
                lemma_position_is(before, key@, i as int);
            }
            let slot = &mut stats[i];
            slot.bytes = slot.bytes.saturating_add(size);
            slot.files = slot.files.saturating_add(1);
            proof {
                assert(totals_of(stats@) =~= tallied(before, key@, size));
            }
            return ;
        }
        i += 1;
    }
    proof {
        lemma_position_is(before, key@, i as int);
    }
    stats.push(TypeStat { key, bytes: size, files: 1 });
    proof {
        assert(totals_of(stats@) =~= tallied(before, key@, size));
    }
}

/// Adds the files of the subtree of `node` to the totals by type and
/// their sizes to `total_file_bytes`.
pub fn collect_type_stats(node: &Node, stats: &mut Vec<TypeStat>, total_file_bytes: &mut u64)
    ensures
        (Collected { totals: totals_of(final(stats)@), bytes: *final(total_file_bytes) })
            == collect_node(
            node@,
            Collected { totals: totals_of(old(stats)@), bytes: *old(total_file_bytes) },
        ),
    decreases node@,
{
    proof {
        node.lemma_view_children();
    }
    if node.children.len() == 0 {
        let key = file_type_key(node.path.as_str());
        tally(stats, key, node.size);
        *total_file_bytes = total_file_bytes.saturating_add(node.size);
        return ;
    }
    let mut i: usize = 0;
    while i < node.children.len()
        invariant
            i <= node.children@.len(),
            node@.children == crate::model::views_of(node.children@),
            collect_children(
                node@,
                i as int,
                Collected { totals: totals_of(stats@), bytes: *total_file_bytes },
            ) == collect_children(
                node@,
                0,
                Collected { totals: totals_of(old(stats)@), bytes: *old(total_file_bytes) },
            ),
        decreases node.children@.len() - i,
    {
        collect_type_stats(&node.children[i], stats, total_file_bytes);
        i += 1;
    }
}

/// Lexicographic order of texts, character by character.
pub open spec fn text_le(a: Seq<char>, b: Seq<char>) -> bool
    decreases a.len(),
{
    if a.len() == 0 {
        true
    } else if b.len() == 0 {
        false
    } else if a[0] != b[0] {
        a[0] < b[0]
    } else {
        text_le(a.drop_first(), b.drop_first())
    }
}

/// The order of the totals in a legend: more bytes first, equal bytes by
/// the name of the type.
pub open spec fn total_le(a: TypeTotal, b: TypeTotal) -> bool {
    a.bytes > b.bytes || (a.bytes == b.bytes && text_le(a.key, b.key))
}

/// Of two texts one comes first.
pub proof fn lemma_text_le_connected(a: Seq<char>, b: Seq<char>)
    ensures
        text_le(a, b) || text_le(b, a),
    decreases a.len(),
{
    if a.len() > 0 && b.len() > 0 && a[0] == b[0] {
        lemma_text_le_connected(a.drop_first(), b.drop_first());
    }
}

/// The order of texts is transitive.
pub proof fn lemma_text_le_transitive(a: Seq<char>, b: Seq<char>, c: Seq<char>)
    requires
        text_le(a, b),
        text_le(b, c),
    ensures
        text_le(a, c),
    decreases a.len(),
{
    if a.len() > 0 && b.len() > 0 && c.len() > 0 && a[0] == b[0] && b[0] == c[0] {
        lemma_text_le_transitive(a.drop_first(), b.drop_first(), c.drop_first());
    }
}

fn text_before(a: &Vec<char>, b: &Vec<char>) -> (before: bool)
    ensures
        before == text_le(a@, b@),
{
    let mut i: usize = 0;
    proof {
        assert(a@.subrange(0, a.len() as int) =~= a@);
        assert(b@.subrange(0, b.len() as int) =~= b@);
    }
    while i < a.len() && i < b.len()
        invariant
            i <= a.len(),
            i <= b.len(),
            text_le(a@, b@) == text_le(
                a@.subrange(i as int, a.len() as int),
                b@.subrange(i as int, b.len() as int),
            ),
        decreases a.len() - i,
    {
        let ghost rest_a = a@.subrange(i as int, a.len() as int);
        let ghost rest_b = b@.subrange(i as int, b.len() as int);
        proof {
            assert(rest_a[0] == a@[i as int]);
            assert(rest_b[0] == b@[i as int]);
            assert(rest_a.drop_first() =~= a@.subrange(i + 1, a.len() as int));
            assert(rest_b.drop_first() =~= b@.subrange(i + 1, b.len() as int));
        }
        if a[i] != b[i] {
            return a[i] < b[i];
        }
        i += 1;
    }
    proof {
        assert(a@.subrange(a.len() as int, a.len() as int).len() == 0);
    }
    i == a.len()
}

fn stat_before(a: &TypeStat, b: &TypeStat) -> (before: bool)
    ensures
        before == total_le(a@, b@),
{
    if a.bytes != b.bytes {
        return a.bytes > b.bytes;
    }
    let left = chars_of(a.key.as_str());
    let right = chars_of(b.key.as_str());
    text_before(&left, &right)
}

/// In legend order: each total comes before those that follow it.
pub open spec fn in_order(totals: Seq<TypeTotal>) -> bool {
    forall|i: int, j: int|
        0 <= i < j < totals.len() ==> total_le(#[trigger] totals[i], #[trigger] totals[j])
}

proof fn lemma_total_le_transitive(a: TypeTotal, b: TypeTotal, c: TypeTotal)
    requires
        total_le(a, b),
        total_le(b, c),
    ensures
        total_le(a, c),
{
    if a.bytes == b.bytes && b.bytes == c.bytes {
        lemma_text_le_transitive(a.key, b.key, c.key);
    }
}

/// Puts the totals into legend order.
pub fn sort_type_stats(stats: Vec<TypeStat>) -> (sorted: Vec<TypeStat>)
    ensures
        in_order(totals_of(sorted@)),
        totals_of(sorted@).to_multiset() == totals_of(stats@).to_multiset(),
        sorted@.len() == stats@.len(),
{
    broadcast use vstd::seq_lib::group_to_multiset_ensures;

    let mut rest = stats;
    let mut sorted: Vec<TypeStat> = Vec::new();
    proof {
        assert(totals_of(sorted@) + totals_of(rest@) =~= totals_of(stats@));
    }
    while rest.len() > 0
        invariant
            in_order(totals_of(sorted@)),
            forall|i: int, j: int|
                0 <= i < sorted@.len() && 0 <= j < rest@.len() ==> total_le(
                    #[trigger] sorted@[i]@,
                    #[trigger] rest@[j]@,
                ),
            (totals_of(sorted@) + totals_of(rest@)).to_multiset() == totals_of(stats@).to_multiset(),
            sorted@.len() + rest@.len() == stats@.len(),
        decreases rest@.len(),
    {
        let mut best: usize = 0;
        let mut j: usize = 1;
        proof {
            lemma_text_le_connected(rest@[0]@.key, rest@[0]@.key);
        }
        while j < rest.len()
            invariant
                best < j <= rest@.len(),
                forall|k: int| 0 <= k < j ==> total_le(rest@[best as int]@, #[trigger] rest@[k]@),
            decreases rest@.len() - j,
        {
            if !stat_before(&rest[best], &rest[j]) {
                proof {
                    let old_best = rest@[best as int]@;
                    let new_best = rest@[j as int]@;
                    lemma_text_le_connected(old_best.key, new_best.key);
                    assert(total_le(new_best, old_best));
                    assert forall|k: int| 0 <= k < j + 1 implies total_le(
                        new_best,
                        #[trigger] rest@[k]@,
                    ) by {
                        if k < j {
                            lemma_total_le_transitive(new_best, old_best, rest@[k]@);
                        } else {
                            lemma_text_le_connected(new_best.key, new_best.key);
                        }
                    }
                }
                best = j;
            } else {
                proof {
                    lemma_text_le_connected(rest@[best as int]@.key, rest@[best as int]@.key);
                }
            }
            j += 1;
        }
        proof {
            lemma_text_le_connected(rest@[best as int]@.key, rest@[best as int]@.key);
        }
        let ghost done = totals_of(sorted@);
        let ghost left = totals_of(rest@);
        let ghost rest_before = rest@;
        let ghost sorted_before = sorted@;
        let stat = rest.remove(best);
        sorted.push(stat);
        proof {
            let picked = left[best as int];
            assert(totals_of(sorted@) =~= done.push(picked));
            assert(totals_of(rest@) =~= left.remove(best as int));
            vstd::seq_lib::lemma_multiset_commutative(done, left);
            vstd::seq_lib::lemma_multiset_commutative(done.push(picked), left.remove(best as int));
            vstd::seq_lib::to_multiset_build(done, picked);
            vstd::seq_lib::to_multiset_remove(left, best as int);
            assert(left.contains(picked));
            vstd::seq_lib::to_multiset_contains(left, picked);
            assert(done.to_multiset().insert(picked).add(left.to_multiset().remove(picked))
                =~= done.to_multiset().add(left.to_multiset())) by {
                broadcast use vstd::multiset::group_multiset_axioms;

            }
            assert((done.push(picked) + left.remove(best as int)).to_multiset() =~= (done
                + left).to_multiset());
            assert forall|i: int, k: int| 0 <= i < k < sorted@.len() implies total_le(
                #[trigger] totals_of(sorted@)[i],
                #[trigger] totals_of(sorted@)[k],
            ) by {
                if k < sorted_before.len() {
                    assert(total_le(done[i], done[k]));
                } else {
                    assert(total_le(sorted_before[i]@, rest_before[best as int]@));
                }
            }
            assert forall|i: int, k: int|
                0 <= i < sorted@.len() && 0 <= k < rest@.len() implies total_le(
                #[trigger] sorted@[i]@,
                #[trigger] rest@[k]@,
            ) by {
                let from = if k < best {
                    k
                } else {
                    k + 1
                };
                assert(rest@[k] == rest_before[from]);
                if i < sorted_before.len() {
                    assert(total_le(sorted_before[i]@, rest_before[from]@));
                } else {
                    assert(total_le(rest_before[best as int]@, rest_before[from]@));
                }
            }
        }
    }
    proof {
        assert(totals_of(sorted@) + totals_of(rest@) =~= totals_of(sorted@));
    }
    sorted
}

/// The totals by type of the files of the tree below `root`, in legend
/// order, and the sum of the sizes of all files.
pub fn compute_type_stats(root: &Node) -> (stats: (Vec<TypeStat>, u64))
    ensures
        in_order(totals_of(stats.0@)),
        totals_of(stats.0@).to_multiset() == collect_node(
            root@,
            Collected { totals: Seq::empty(), bytes: 0 },
        ).totals.to_multiset(),
        stats.1 == collect_node(root@, Collected { totals: Seq::empty(), bytes: 0 }).bytes,
{
    let mut collected: Vec<TypeStat> = Vec::new();
    let mut total_file_bytes: u64 = 0;
    proof {
        assert(totals_of(collected@) =~= Seq::<TypeTotal>::empty());
    }
    collect_type_stats(root, &mut collected, &mut total_file_bytes);
    (sort_type_stats(collected), total_file_bytes)
}

} // verus!
